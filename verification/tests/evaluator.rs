use logo::error::RuntimeError;
use logo::evaluator::{apply_operator, bind, Evaluator, Instruction, MAX_CALL_DEPTH};
use logo::lexer::{Lexer, Operator};
use logo::parser::{Expression, Parser, Statement, AST};
use logo::Command;

fn parse(source: &str) -> AST {
    let tokens = Lexer::new(source).collect_tokens().unwrap();
    Parser::new(&tokens).build_ast().unwrap()
}

fn run(evaluator: &mut Evaluator, source: &str) -> Result<Vec<Instruction>, RuntimeError> {
    evaluator.evaluate_ast(&parse(source))
}

fn ins(command: Command, args: Vec<isize>) -> Instruction {
    Instruction { command, args }
}

fn num(val: isize) -> Expression {
    Expression::Number { val }
}

fn var(name: &str) -> Expression {
    Expression::Variable {
        name: name.to_string(),
    }
}

fn op(op: Operator) -> Expression {
    Expression::Operator { op }
}

#[test]
fn evaluate_movement_commands_test() {
    let mut evaluator = Evaluator::new();

    let ast = AST {
        statements: vec![
            Statement::ProcedureCall {
                name: "fd".to_string(),
                args: vec![Expression::Number { val: 10 }],
            },
            Statement::ProcedureCall {
                name: "backward".to_string(),
                args: vec![Expression::Number { val: 4321 }],
            },
            Statement::ProcedureCall {
                name: "right".to_string(),
                args: vec![Expression::Number { val: 100 }],
            },
            Statement::ProcedureCall {
                name: "left".to_string(),
                args: vec![Expression::Number { val: -100 }],
            },
        ],
    };

    let instructions = match evaluator.evaluate_ast(&ast) {
        Ok(i) => i,
        Err(e) => panic!("{}", e.to_string()),
    };

    assert_eq!(
        instructions,
        vec![
            Instruction {
                command: Command::Forward,
                args: vec![10],
            },
            Instruction {
                command: Command::Backward,
                args: vec![4321],
            },
            Instruction {
                command: Command::Right,
                args: vec![100],
            },
            Instruction {
                command: Command::Left,
                args: vec![-100],
            },
        ],
    );
}

#[test]
fn evaluate_repeat_test() {
    let mut evaluator = Evaluator::new();

    let ast = AST {
        statements: vec![Statement::Repeat {
            count: Expression::Number { val: 3 },
            body: AST {
                statements: vec![Statement::ProcedureCall {
                    name: "forward".to_string(),
                    args: vec![Expression::Number { val: 10 }],
                }],
            },
        }],
    };

    let instructions = evaluator.evaluate_ast(&ast).unwrap();
    assert_eq!(
        instructions,
        (0..3)
            .map(|_| {
                Instruction {
                    command: Command::Forward,
                    args: vec![10],
                }
            })
            .collect::<Vec<_>>()
    );
}

#[test]
fn evaluate_postfix_test() {
    let mut evaluator = Evaluator::new();
    evaluator.assign("count".to_string(), 10);
    evaluator.assign("size".to_string(), 50);

    // 10 5 /
    let postfix = vec![
        Expression::Number { val: 10 },
        Expression::Number { val: 5 },
        Expression::Operator {
            op: Operator::Division,
        },
    ];

    assert_eq!(evaluator.evaluate_postfix(&postfix).unwrap(), 2);

    // evaluating 10 * :count + :size / 10
    // in postfix: '10 :count * :size 10 / +'
    let postfix = vec![
        Expression::Number { val: 10 },
        Expression::Variable {
            name: "count".to_string(),
        },
        Expression::Operator {
            op: Operator::Multiplication,
        },
        Expression::Variable {
            name: "size".to_string(),
        },
        Expression::Number { val: 10 },
        Expression::Operator {
            op: Operator::Division,
        },
        Expression::Operator {
            op: Operator::Addition,
        },
    ];

    assert_eq!(evaluator.evaluate_postfix(&postfix).unwrap(), 105);

    // 10 7 8 * + 2 -
    let postfix = vec![
        Expression::Number { val: 10 },
        Expression::Number { val: 7 },
        Expression::Number { val: 8 },
        Expression::Operator {
            op: Operator::Multiplication,
        },
        Expression::Operator {
            op: Operator::Addition,
        },
        Expression::Number { val: 2 },
        Expression::Operator {
            op: Operator::Subtraction,
        },
    ];

    assert_eq!(evaluator.evaluate_postfix(&postfix).unwrap(), 64);
}

#[test]
fn every_command_emits_with_its_arity() {
    let cases: Vec<(&str, Command, usize)> = vec![
        ("forward", Command::Forward, 1),
        ("backward", Command::Backward, 1),
        ("left", Command::Left, 1),
        ("right", Command::Right, 1),
        ("setheading", Command::SetHeading, 1),
        ("setxy", Command::SetXY, 2),
        ("home", Command::Home, 0),
        ("penup", Command::PenUp, 0),
        ("pendown", Command::PenDown, 0),
        ("setpensize", Command::SetPenSize, 1),
        ("setpencolor", Command::SetPenColor, 3),
        ("fill", Command::Fill, 0),
        ("setfillcolor", Command::SetFillColor, 3),
        ("hideturtle", Command::HideTurtle, 0),
        ("showturtle", Command::ShowTurtle, 0),
        ("clearscreen", Command::ClearScreen, 0),
        ("clean", Command::Clean, 0),
        ("setscreencolor", Command::SetScreenColor, 3),
        ("show", Command::Show, 1),
        ("exit", Command::Exit, 0),
    ];
    for (name, command, arity) in cases {
        for count in 0..5usize {
            let mut evaluator = Evaluator::new();
            let args: Vec<Expression> = (0..count).map(|i| num(i as isize + 1)).collect();
            let ast = AST {
                statements: vec![Statement::ProcedureCall {
                    name: name.to_string(),
                    args,
                }],
            };
            let mut emitted = vec![];
            let result = evaluator.evaluate_statement(&ast.statements[0], &mut emitted);
            if count == arity {
                assert_eq!(result, Ok(()));
                assert_eq!(
                    emitted,
                    vec![ins(command, (1..=count as isize).collect())]
                );
            } else {
                assert_eq!(
                    result,
                    Err(RuntimeError::ArgCountMismatch { expected: arity })
                );
                assert_eq!(emitted, vec![]);
            }
        }
    }
}

#[test]
fn procedure_declaration_and_call() {
    let mut evaluator = Evaluator::new();
    assert_eq!(
        run(
            &mut evaluator,
            "to sq :s forward :s right 90 forward :s right 90 end"
        ),
        Ok(vec![])
    );
    assert_eq!(
        run(&mut evaluator, "sq 10"),
        Ok(vec![
            ins(Command::Forward, vec![10]),
            ins(Command::Right, vec![90]),
            ins(Command::Forward, vec![10]),
            ins(Command::Right, vec![90]),
        ])
    );
}

#[test]
fn redeclared_procedure() {
    let mut evaluator = Evaluator::new();
    run(&mut evaluator, "to p fd 1 end").unwrap();
    assert_eq!(
        run(&mut evaluator, "to p fd 2 end"),
        Err(RuntimeError::RedeclaredProcedure {
            name: "p".to_string()
        })
    );
    // the first declaration stands
    assert_eq!(
        run(&mut evaluator, "p"),
        Ok(vec![ins(Command::Forward, vec![1])])
    );
}

#[test]
fn procedure_not_found() {
    let mut evaluator = Evaluator::new();
    let ast = parse("nothing 1 2");
    let mut emitted = vec![];
    assert_eq!(
        evaluator.evaluate_statement(&ast.statements[0], &mut emitted),
        Err(RuntimeError::ProcedureNotFound {
            name: "nothing".to_string()
        })
    );
    assert_eq!(emitted, vec![]);
}

#[test]
fn variable_not_found() {
    let mut evaluator = Evaluator::new();
    assert_eq!(
        run(&mut evaluator, "forward :x"),
        Err(RuntimeError::VariableNotFound {
            name: "x".to_string()
        })
    );
    assert_eq!(evaluator.lookup(&"x".to_string()), None);
}

#[test]
fn procedure_argument_count() {
    let mut evaluator = Evaluator::new();
    run(&mut evaluator, "to two :a :b fd :a fd :b end").unwrap();
    assert_eq!(
        run(&mut evaluator, "two 1"),
        Err(RuntimeError::ArgCountMismatch { expected: 2 })
    );
    assert_eq!(
        run(&mut evaluator, "two 1 2 3"),
        Err(RuntimeError::ArgCountMismatch { expected: 2 })
    );
    // the count is checked before any argument is evaluated
    assert_eq!(
        run(&mut evaluator, "two :missing"),
        Err(RuntimeError::ArgCountMismatch { expected: 2 })
    );
    assert_eq!(
        run(&mut evaluator, "two 1 2"),
        Ok(vec![
            ins(Command::Forward, vec![1]),
            ins(Command::Forward, vec![2])
        ])
    );
}

#[test]
fn commands_come_before_procedures() {
    let mut evaluator = Evaluator::new();
    run(&mut evaluator, "to forward :x back :x end").unwrap();
    assert_eq!(
        run(&mut evaluator, "forward 3"),
        Ok(vec![ins(Command::Forward, vec![3])])
    );
}

#[test]
fn variable_overwrite_is_silent() {
    let mut evaluator = Evaluator::new();
    run(&mut evaluator, "make \"x 5 make \"x :x + 1").unwrap();
    assert_eq!(evaluator.lookup(&"x".to_string()), Some(6));
    assert_eq!(
        run(&mut evaluator, "forward :x"),
        Ok(vec![ins(Command::Forward, vec![6])])
    );
}

#[test]
fn repeat_count_not_positive() {
    let mut evaluator = Evaluator::new();
    assert_eq!(run(&mut evaluator, "repeat 0 [ forward 1 ]"), Ok(vec![]));
    assert_eq!(run(&mut evaluator, "repeat -3 [ forward 1 ]"), Ok(vec![]));
    // the body is not run, so what is wrong in it is not met
    assert_eq!(run(&mut evaluator, "repeat 0 [ nothing ]"), Ok(vec![]));
}

#[test]
fn repeat_count_is_evaluated_once() {
    let mut evaluator = Evaluator::new();
    assert_eq!(
        run(
            &mut evaluator,
            "make \"n 2 repeat :n [ make \"n :n + 1 forward :n ]"
        ),
        Ok(vec![
            ins(Command::Forward, vec![3]),
            ins(Command::Forward, vec![4])
        ])
    );
}

#[test]
fn nested_repeat() {
    let mut evaluator = Evaluator::new();
    let out = run(&mut evaluator, "repeat 2 [ fd 1 repeat 3 [ rt 2 ] ]").unwrap();
    let once = vec![
        ins(Command::Forward, vec![1]),
        ins(Command::Right, vec![2]),
        ins(Command::Right, vec![2]),
        ins(Command::Right, vec![2]),
    ];
    let mut twice = vec![];
    for _ in 0..2 {
        for i in once.iter() {
            twice.push(ins(i.command, i.args.clone()));
        }
    }
    assert_eq!(out, twice);
}

#[test]
fn failure_keeps_earlier_effects() {
    let mut evaluator = Evaluator::new();
    assert_eq!(
        run(&mut evaluator, "make \"x 7 to p fd :x end forward :nope make \"y 1"),
        Err(RuntimeError::VariableNotFound {
            name: "nope".to_string()
        })
    );
    assert_eq!(evaluator.lookup(&"x".to_string()), Some(7));
    assert_eq!(evaluator.lookup(&"y".to_string()), None);
    assert_eq!(
        run(&mut evaluator, "p"),
        Ok(vec![ins(Command::Forward, vec![7])])
    );
}

#[test]
fn failure_keeps_instructions_in_the_running_list() {
    let mut evaluator = Evaluator::new();
    let ast = parse("fd 1 repeat 2 [ fd 2 ] fd :nope fd 3");
    let mut emitted = vec![ins(Command::Home, vec![])];
    assert_eq!(
        evaluator.evaluate_block(&ast.statements, &mut emitted),
        Err(RuntimeError::VariableNotFound {
            name: "nope".to_string()
        })
    );
    assert_eq!(
        emitted,
        vec![
            ins(Command::Home, vec![]),
            ins(Command::Forward, vec![1]),
            ins(Command::Forward, vec![2]),
            ins(Command::Forward, vec![2]),
        ]
    );
}

#[test]
fn scope_isolation() {
    let mut evaluator = Evaluator::new();
    run(
        &mut evaluator,
        "make \"x 1 to p :a make \"x :a make \"y 9 forward :x end",
    )
    .unwrap();
    assert_eq!(
        run(&mut evaluator, "p 5 forward :x"),
        Ok(vec![
            ins(Command::Forward, vec![5]),
            ins(Command::Forward, vec![1])
        ])
    );
    assert_eq!(evaluator.lookup(&"x".to_string()), Some(1));
    assert_eq!(evaluator.lookup(&"y".to_string()), None);
    assert_eq!(evaluator.lookup(&"a".to_string()), None);
}

#[test]
fn scope_is_left_on_failure() {
    let mut evaluator = Evaluator::new();
    run(&mut evaluator, "to p :a make \"y 9 forward :nope end").unwrap();
    assert!(run(&mut evaluator, "p 1").is_err());
    // the frame of the failed call is gone: this binds a global
    run(&mut evaluator, "make \"z 3").unwrap();
    run(&mut evaluator, "to q forward :z end").unwrap();
    assert_eq!(
        run(&mut evaluator, "q"),
        Ok(vec![ins(Command::Forward, vec![3])])
    );
    assert_eq!(evaluator.lookup(&"y".to_string()), None);
    assert_eq!(evaluator.lookup(&"a".to_string()), None);
}

#[test]
fn innermost_scope_wins() {
    let mut evaluator = Evaluator::new();
    run(
        &mut evaluator,
        "to inner :v forward :v end to outer :v inner :v + 1 forward :v end",
    )
    .unwrap();
    assert_eq!(
        run(&mut evaluator, "make \"v 100 outer 1 forward :v"),
        Ok(vec![
            ins(Command::Forward, vec![2]),
            ins(Command::Forward, vec![1]),
            ins(Command::Forward, vec![100]),
        ])
    );
}

#[test]
fn callee_sees_the_callers_locals() {
    let mut evaluator = Evaluator::new();
    run(
        &mut evaluator,
        "to inner forward :a end to outer :a inner end",
    )
    .unwrap();
    assert_eq!(
        run(&mut evaluator, "outer 4"),
        Ok(vec![ins(Command::Forward, vec![4])])
    );
}

#[test]
fn arguments_are_evaluated_in_the_callers_scope() {
    let mut evaluator = Evaluator::new();
    run(&mut evaluator, "to p :x forward :x end").unwrap();
    assert_eq!(
        run(&mut evaluator, "make \"x 3 p :x * 2"),
        Ok(vec![ins(Command::Forward, vec![6])])
    );
}

#[test]
fn recursion_unrolls() {
    let mut evaluator = Evaluator::new();
    // the count is 1 for a positive :n and 0 for zero
    run(
        &mut evaluator,
        "to down :n repeat 1 - 1 / (:n + 1) [ forward :n down :n - 1 ] end",
    )
    .unwrap();
    assert_eq!(
        run(&mut evaluator, "down 3"),
        Ok(vec![
            ins(Command::Forward, vec![3]),
            ins(Command::Forward, vec![2]),
            ins(Command::Forward, vec![1]),
        ])
    );
    assert_eq!(run(&mut evaluator, "down 0"), Ok(vec![]));
    // unrolled by hand to the same depth
    assert_eq!(
        run(
            &mut evaluator,
            "make \"n 3 repeat 1 [ forward :n make \"n :n - 1 repeat 1 [ forward :n make \"n :n - 1 repeat 1 [ forward :n make \"n :n - 1 repeat 0 [ forward :n ] ] ] ]"
        ),
        run(&mut evaluator, "down 3")
    );
}

#[test]
fn call_depth_is_limited() {
    let mut evaluator = Evaluator::new();
    run(&mut evaluator, "to forever forward 1 forever end").unwrap();
    let ast = parse("forever");
    let mut emitted = vec![];
    assert_eq!(
        evaluator.evaluate_statement(&ast.statements[0], &mut emitted),
        Err(RuntimeError::CallDepthExceeded)
    );
    assert_eq!(emitted.len(), MAX_CALL_DEPTH);
    // the frames are gone: a declaration at top level is global again
    run(&mut evaluator, "make \"g 1").unwrap();
    run(&mut evaluator, "to show_g forward :g end").unwrap();
    assert_eq!(
        run(&mut evaluator, "show_g"),
        Ok(vec![ins(Command::Forward, vec![1])])
    );
}

#[test]
fn recursion_within_the_limit() {
    let mut evaluator = Evaluator::new();
    run(
        &mut evaluator,
        "to down :n repeat 1 - 1 / (:n + 1) [ down :n - 1 forward :n ] end",
    )
    .unwrap();
    let depth = MAX_CALL_DEPTH as isize - 1;
    let out = run(&mut evaluator, &format!("down {}", depth)).unwrap();
    assert_eq!(out.len(), depth as usize);
    assert_eq!(out[0], ins(Command::Forward, vec![1]));
    assert_eq!(
        run(&mut evaluator, &format!("down {}", depth + 1)),
        Err(RuntimeError::CallDepthExceeded)
    );
}

#[test]
fn division_truncates_towards_zero() {
    assert_eq!(apply_operator(Operator::Division, 7, 2), Ok(3));
    assert_eq!(apply_operator(Operator::Division, -7, 2), Ok(-3));
    assert_eq!(apply_operator(Operator::Division, 7, -2), Ok(-3));
    assert_eq!(apply_operator(Operator::Division, -7, -2), Ok(3));
    assert_eq!(apply_operator(Operator::Division, 0, -2), Ok(0));
}

#[test]
fn division_by_zero() {
    assert_eq!(
        apply_operator(Operator::Division, 1, 0),
        Err(RuntimeError::DivisionByZero)
    );
    let mut evaluator = Evaluator::new();
    assert_eq!(
        run(&mut evaluator, "forward 1 / 0"),
        Err(RuntimeError::DivisionByZero)
    );
}

#[test]
fn arithmetic_overflow() {
    assert_eq!(
        apply_operator(Operator::Addition, isize::MAX, 1),
        Err(RuntimeError::Overflow)
    );
    assert_eq!(
        apply_operator(Operator::Subtraction, isize::MIN, 1),
        Err(RuntimeError::Overflow)
    );
    assert_eq!(
        apply_operator(Operator::Multiplication, isize::MAX, 2),
        Err(RuntimeError::Overflow)
    );
    assert_eq!(
        apply_operator(Operator::Division, isize::MIN, -1),
        Err(RuntimeError::Overflow)
    );
    assert_eq!(
        apply_operator(Operator::Addition, isize::MAX - 1, 1),
        Ok(isize::MAX)
    );
    let mut evaluator = Evaluator::new();
    assert_eq!(
        run(&mut evaluator, &format!("forward {} + 1", isize::MAX)),
        Err(RuntimeError::Overflow)
    );
    assert_eq!(
        run(&mut evaluator, &format!("forward {} * -1", isize::MIN)),
        Err(RuntimeError::Overflow)
    );
    assert_eq!(apply_operator(Operator::Subtraction, 3, 5), Ok(-2));
    assert_eq!(apply_operator(Operator::Multiplication, -3, 5), Ok(-15));
}

#[test]
fn malformed_postfix() {
    let evaluator = Evaluator::new();
    assert_eq!(
        evaluator.evaluate_postfix(&vec![num(1), op(Operator::Addition)]),
        Err(RuntimeError::Other(
            "reverse polish notation lacks an operand".to_string()
        ))
    );
    assert_eq!(
        evaluator.evaluate_postfix(&vec![]),
        Err(RuntimeError::Other(
            "reverse polish notation yields no value".to_string()
        ))
    );
    assert_eq!(
        evaluator.evaluate_postfix(&vec![Expression::ArithmeticExpression {
            postfix: vec![num(1)]
        }]),
        Err(RuntimeError::Other(
            "reverse polish notation should only contain numbers, variables and operators"
                .to_string()
        ))
    );
    assert_eq!(
        evaluator.evaluate_expression(&op(Operator::Addition)),
        Err(RuntimeError::Other(
            "Encountered unexpected operator Addition".to_string()
        ))
    );
    // what is left over lies above the value
    assert_eq!(evaluator.evaluate_postfix(&vec![num(1), num(2)]), Ok(1));
}

#[test]
fn right_operand_is_taken_first() {
    let evaluator = Evaluator::new();
    assert_eq!(
        evaluator.evaluate_postfix(&vec![num(10), num(3), op(Operator::Subtraction)]),
        Ok(7)
    );
    assert_eq!(
        evaluator.evaluate_postfix(&vec![num(10), num(3), op(Operator::Division)]),
        Ok(3)
    );
}

#[test]
fn expressions_do_not_change_the_state() {
    let mut evaluator = Evaluator::new();
    evaluator.assign("x".to_string(), 4);
    assert_eq!(evaluator.evaluate_expression(&var("x")), Ok(4));
    assert_eq!(evaluator.evaluate_operand(&num(9)), Ok(9));
    assert_eq!(
        evaluator.evaluate_arguments(&vec![num(1), var("x")]),
        Ok(vec![1, 4])
    );
    assert_eq!(
        evaluator.evaluate_arguments(&vec![var("y"), var("z")]),
        Err(RuntimeError::VariableNotFound {
            name: "y".to_string()
        })
    );
    assert_eq!(evaluator.lookup(&"x".to_string()), Some(4));
}

#[test]
fn later_parameter_of_one_name_counts() {
    let mut evaluator = Evaluator::new();
    run(&mut evaluator, "to p :a :a forward :a end").unwrap();
    assert_eq!(
        run(&mut evaluator, "p 1 2"),
        Ok(vec![ins(Command::Forward, vec![2])])
    );
    let frame = bind(&vec!["a".to_string(), "a".to_string()], &vec![1, 2]);
    assert_eq!(frame.get(&"a".to_string()), Some(&2));
    assert!(!frame.contains(&"b".to_string()));
    let uneven = bind(&vec!["a".to_string()], &vec![1, 2]);
    assert!(!uneven.contains(&"a".to_string()));
}

#[test]
fn procedures_declared_in_a_body_are_global() {
    let mut evaluator = Evaluator::new();
    run(&mut evaluator, "to outer to inner forward 1 end end").unwrap();
    assert_eq!(
        run(&mut evaluator, "inner"),
        Err(RuntimeError::ProcedureNotFound {
            name: "inner".to_string()
        })
    );
    run(&mut evaluator, "outer").unwrap();
    assert_eq!(
        run(&mut evaluator, "inner"),
        Ok(vec![ins(Command::Forward, vec![1])])
    );
    assert_eq!(
        run(&mut evaluator, "outer"),
        Err(RuntimeError::RedeclaredProcedure {
            name: "inner".to_string()
        })
    );
}

#[test]
fn stored_body_is_a_copy() {
    let mut evaluator = Evaluator::new();
    let mut ast = parse("to p forward 1 end");
    evaluator.evaluate_ast(&ast).unwrap();
    if let Statement::ProcedureDeclaration { body, .. } = &mut ast.statements[0] {
        body.statements.clear();
    }
    assert_eq!(
        run(&mut evaluator, "p"),
        Ok(vec![ins(Command::Forward, vec![1])])
    );
}
