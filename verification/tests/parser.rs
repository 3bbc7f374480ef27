use logo::error::ParseError;
use logo::lexer::{Lexer, Operator, Token};
use logo::parser::{Expression, Parser, Statement, AST};

fn parse_test(input: Vec<Token>, expected: AST) {
    let ast = Parser::new(&input).build_ast().unwrap();
    assert_eq!(ast, expected);
}

fn lex(source: &str) -> Vec<Token> {
    Lexer::new(source).collect_tokens().unwrap()
}

fn parse(source: &str) -> Result<AST, ParseError> {
    Parser::new(&lex(source)).build_ast()
}

fn num(val: isize) -> Expression {
    Expression::Number { val }
}

fn var(name: &str) -> Expression {
    Expression::Variable {
        name: name.to_string(),
    }
}

fn op(op: Operator) -> Expression {
    Expression::Operator { op }
}

fn postfix(items: Vec<Expression>) -> Expression {
    Expression::ArithmeticExpression { postfix: items }
}

fn call(name: &str, args: Vec<Expression>) -> Statement {
    Statement::ProcedureCall {
        name: name.to_string(),
        args,
    }
}

#[test]
fn parse_short_command_test() {
    parse_test(
        vec![
            Token::Identifier {
                literal: "forward".to_string(),
            },
            Token::Number {
                literal: String::from("70"),
            },
        ],
        AST {
            statements: vec![Statement::ProcedureCall {
                name: "forward".to_string(),
                args: vec![Expression::Number { val: 70 }],
            }],
        },
    );
}

#[test]
fn parse_two_argument_command_test() {
    parse_test(
        vec![
            Token::Identifier {
                literal: "setxy".to_string(),
            },
            Token::Number {
                literal: String::from("-60"),
            },
            Token::Number {
                literal: String::from("60"),
            },
        ],
        AST {
            statements: vec![Statement::ProcedureCall {
                name: "setxy".to_string(),
                args: vec![
                    Expression::Number { val: -60 },
                    Expression::Number { val: 60 },
                ],
            }],
        },
    );
}

#[test]
fn parse_variable_argument_command_test() {
    parse_test(
        vec![
            Token::Identifier {
                literal: "setxy".to_string(),
            },
            Token::Variable {
                name: String::from("x"),
            },
            Token::Variable {
                name: String::from("Y"),
            },
        ],
        AST {
            statements: vec![Statement::ProcedureCall {
                name: "setxy".to_string(),
                args: vec![
                    Expression::Variable {
                        name: String::from("x"),
                    },
                    Expression::Variable {
                        name: String::from("Y"),
                    },
                ],
            }],
        },
    );
}

#[test]
fn parse_repeat_test() {
    // source: repeat 10 [ forward 50 ]
    parse_test(
        vec![
            Token::Repeat,
            Token::Number {
                literal: String::from("10"),
            },
            Token::LBracket,
            Token::Identifier {
                literal: "forward".to_string(),
            },
            Token::Number {
                literal: String::from("50"),
            },
            Token::RBracket,
        ],
        AST {
            statements: vec![Statement::Repeat {
                count: Expression::Number { val: 10 },
                body: AST {
                    statements: vec![Statement::ProcedureCall {
                        name: "forward".to_string(),
                        args: vec![Expression::Number { val: 50 }],
                    }],
                },
            }],
        },
    );
}

#[test]
fn parse_nested_repeat_test() {
    // source: repeat 10 [ forward 50 repeat 45 [ rt 1 ] ]
    parse_test(
        vec![
            Token::Repeat,
            Token::Number {
                literal: String::from("10"),
            },
            Token::LBracket,
            Token::Identifier {
                literal: "forward".to_string(),
            },
            Token::Number {
                literal: String::from("50"),
            },
            Token::Repeat,
            Token::Number {
                literal: String::from("45"),
            },
            Token::LBracket,
            Token::Identifier {
                literal: "right".to_string(),
            },
            Token::Number {
                literal: String::from("1"),
            },
            Token::RBracket,
            Token::RBracket,
        ],
        AST {
            statements: vec![Statement::Repeat {
                count: Expression::Number { val: 10 },
                body: AST {
                    statements: vec![
                        Statement::ProcedureCall {
                            name: "forward".to_string(),
                            args: vec![Expression::Number { val: 50 }],
                        },
                        Statement::Repeat {
                            count: Expression::Number { val: 45 },
                            body: AST {
                                statements: vec![Statement::ProcedureCall {
                                    name: "right".to_string(),
                                    args: vec![Expression::Number { val: 1 }],
                                }],
                            },
                        },
                    ],
                },
            }],
        },
    );
}

#[test]
fn parse_arithmetic_expression_test() {
    // 10 + 7 * 8 - 2
    let input = vec![
        Token::Number {
            literal: "10".to_string(),
        },
        Token::Operator(Operator::Addition),
        Token::Number {
            literal: "7".to_string(),
        },
        Token::Operator(Operator::Multiplication),
        Token::Number {
            literal: "8".to_string(),
        },
        Token::Operator(Operator::Subtraction),
        Token::Number {
            literal: "2".to_string(),
        },
    ];

    assert_eq!(
        Parser::new(&input).parse_arithmetic_expression(None).unwrap(),
        Expression::ArithmeticExpression {
            //postfix: "10 7 8 * + 2 -".to_string()
            postfix: vec![
                Expression::Number { val: 10 },
                Expression::Number { val: 7 },
                Expression::Number { val: 8 },
                Expression::Operator {
                    op: Operator::Multiplication
                },
                Expression::Operator {
                    op: Operator::Addition
                },
                Expression::Number { val: 2 },
                Expression::Operator {
                    op: Operator::Subtraction
                },
            ],
        },
    );

    // :size + :count * :length
    let input = vec![
        Token::Variable {
            name: "size".to_string(),
        },
        Token::Operator(Operator::Addition),
        Token::Variable {
            name: "count".to_string(),
        },
        Token::Operator(Operator::Multiplication),
        Token::Variable {
            name: "length".to_string(),
        },
    ];

    assert_eq!(
        Parser::new(&input).parse_arithmetic_expression(None).unwrap(),
        Expression::ArithmeticExpression {
            // :size :count :length * +
            postfix: vec![
                Expression::Variable {
                    name: "size".to_string()
                },
                Expression::Variable {
                    name: "count".to_string()
                },
                Expression::Variable {
                    name: "length".to_string()
                },
                Expression::Operator {
                    op: Operator::Multiplication
                },
                Expression::Operator {
                    op: Operator::Addition
                },
            ]
        }
    );
}

#[test]
fn parse_arithmetic_with_paren_test() {
    // ((2 + 7) * (5 * (3 / 1)))
    let input = vec![
        Token::LParen,
        Token::LParen,
        Token::Number {
            literal: "2".to_string(),
        },
        Token::Operator(Operator::Addition),
        Token::Number {
            literal: "7".to_string(),
        },
        Token::RParen,
        Token::Operator(Operator::Multiplication),
        Token::LParen,
        Token::Number {
            literal: "5".to_string(),
        },
        Token::Operator(Operator::Multiplication),
        Token::LParen,
        Token::Number {
            literal: "3".to_string(),
        },
        Token::Operator(Operator::Division),
        Token::Number {
            literal: "1".to_string(),
        },
        Token::RParen,
        Token::RParen,
        Token::RParen,
    ];

    // expect: 2 7 + 5 3 1 / * *
    assert_eq!(
        Parser::new(&input).parse_arithmetic_expression(None).unwrap(),
        Expression::ArithmeticExpression {
            postfix: vec![
                Expression::Number { val: 2 },
                Expression::Number { val: 7 },
                Expression::Operator {
                    op: Operator::Addition
                },
                Expression::Number { val: 5 },
                Expression::Number { val: 3 },
                Expression::Number { val: 1 },
                Expression::Operator {
                    op: Operator::Division
                },
                Expression::Operator {
                    op: Operator::Multiplication
                },
                Expression::Operator {
                    op: Operator::Multiplication
                },
            ],
        }
    );
}

#[test]
fn parse_procedure_test() {
    /* to my_procedure
     * forward 100
     * repeat 10 [
     *     right 45
     * ]
     * end
     *
     */
    parse_test(
        vec![
            Token::To,
            Token::Identifier {
                literal: "my_procedure".to_string(),
            },
            Token::Identifier {
                literal: "forward".to_string(),
            },
            Token::Number {
                literal: "100".to_string(),
            },
            Token::Repeat,
            Token::Number {
                literal: "10".to_string(),
            },
            Token::LBracket,
            Token::Identifier {
                literal: "right".to_string(),
            },
            Token::Number {
                literal: "45".to_string(),
            },
            Token::RBracket,
            Token::End,
        ],
        AST {
            statements: vec![Statement::ProcedureDeclaration {
                name: "my_procedure".to_string(),
                body: AST {
                    statements: vec![
                        Statement::ProcedureCall {
                            name: "forward".to_string(),
                            args: vec![Expression::Number { val: 100 }],
                        },
                        Statement::Repeat {
                            count: Expression::Number { val: 10 },
                            body: AST {
                                statements: vec![Statement::ProcedureCall {
                                    name: "right".to_string(),
                                    args: vec![Expression::Number { val: 45 }],
                                }],
                            },
                        },
                    ],
                },
                params: Vec::new(),
            }],
        },
    );
}

#[test]
fn parse_paramaterized_procedure_test() {
    /* to show_me :x
     * show :x
     * end
     */
    parse_test(
        vec![
            Token::To,
            Token::Identifier {
                literal: "show_me".to_string(),
            },
            Token::Variable {
                name: "x".to_string(),
            },
            Token::Identifier {
                literal: "show".to_string(),
            },
            Token::Variable {
                name: "x".to_string(),
            },
            Token::End,
        ],
        AST {
            statements: vec![Statement::ProcedureDeclaration {
                name: "show_me".to_string(),
                body: AST {
                    statements: vec![Statement::ProcedureCall {
                        name: "show".to_string(),
                        args: vec![Expression::Variable {
                            name: "x".to_string(),
                        }],
                    }],
                },
                params: vec!["x".to_string()],
            }],
        },
    );
}

#[test]
fn parse_empty_program() {
    assert_eq!(parse("").unwrap(), AST::new());
    assert_eq!(AST::new().statements.len(), 0);
}

#[test]
fn parse_variable_declaration() {
    assert_eq!(
        parse("make \"x 5 make \"y :x * 2").unwrap(),
        AST {
            statements: vec![
                Statement::VariableDeclaration {
                    name: "x".to_string(),
                    val: Box::new(num(5)),
                },
                Statement::VariableDeclaration {
                    name: "y".to_string(),
                    val: Box::new(postfix(vec![
                        var("x"),
                        num(2),
                        op(Operator::Multiplication)
                    ])),
                },
            ],
        }
    );
}

#[test]
fn parse_arithmetic_to_postfix() {
    // 10 + 7 * 8 - 2
    assert_eq!(
        parse("forward 10 + 7 * 8 - 2").unwrap(),
        AST {
            statements: vec![call(
                "forward",
                vec![postfix(vec![
                    num(10),
                    num(7),
                    num(8),
                    op(Operator::Multiplication),
                    op(Operator::Addition),
                    num(2),
                    op(Operator::Subtraction),
                ])]
            )],
        }
    );
}

#[test]
fn parse_single_operand_is_not_wrapped() {
    assert_eq!(
        parse("setxy 3 :y").unwrap(),
        AST {
            statements: vec![call("setxy", vec![num(3), var("y")])],
        }
    );
}

#[test]
fn parse_parenthesised_argument() {
    assert_eq!(
        parse("setxy (1 + 2) * 3 4").unwrap().statements,
        vec![call(
            "setxy",
            vec![postfix(vec![
                num(1),
                num(2),
                op(Operator::Addition),
                num(3),
                num(4),
                op(Operator::Multiplication),
            ])]
        )]
    );
    assert_eq!(
        parse("fd (5)").unwrap().statements,
        vec![call("fd", vec![postfix(vec![num(5)])])]
    );
}

#[test]
fn parse_left_to_right_among_equals() {
    // 8 - 3 - 2 and 8 / 4 * 2
    assert_eq!(
        parse("fd 8 - 3 - 2").unwrap().statements,
        vec![call(
            "fd",
            vec![postfix(vec![
                num(8),
                num(3),
                op(Operator::Subtraction),
                num(2),
                op(Operator::Subtraction),
            ])]
        )]
    );
    assert_eq!(
        parse("fd 8 / 4 * 2").unwrap().statements,
        vec![call(
            "fd",
            vec![postfix(vec![
                num(8),
                num(4),
                op(Operator::Division),
                num(2),
                op(Operator::Multiplication),
            ])]
        )]
    );
}

#[test]
fn parse_call_arguments_are_not_counted() {
    assert_eq!(
        parse("forward forward 1 2 3").unwrap().statements,
        vec![
            call("forward", vec![]),
            call("forward", vec![num(1), num(2), num(3)])
        ]
    );
}

#[test]
fn parse_unbalanced_parentheses() {
    assert_eq!(parse("fd (1 + 2"), Err(ParseError::UnbalancedParens));
    assert_eq!(parse("fd 1 + 2)"), Err(ParseError::UnbalancedParens));
    assert_eq!(parse("fd ((1)"), Err(ParseError::UnbalancedParens));
    assert_eq!(parse("fd 2 * (1 + 2))"), Err(ParseError::UnbalancedParens));
}

#[test]
fn parse_end_of_input() {
    assert_eq!(parse("repeat 3 [ forward 10"), Err(ParseError::EOF));
    assert_eq!(parse("repeat 3"), Err(ParseError::EOF));
    assert_eq!(parse("repeat"), Err(ParseError::EOF));
    assert_eq!(parse("make"), Err(ParseError::EOF));
    assert_eq!(parse("make \"x"), Err(ParseError::EOF));
    assert_eq!(parse("to"), Err(ParseError::EOF));
    assert_eq!(parse("to sq :s forward :s"), Err(ParseError::EOF));
}

#[test]
fn parse_unexpected_token() {
    assert_eq!(
        parse("]"),
        Err(ParseError::UnexpectedToken(
            Token::RBracket,
            vec![
                Token::Repeat,
                Token::Make,
                Token::To,
                Token::Identifier {
                    literal: "".to_string()
                },
            ]
        ))
    );
    assert_eq!(
        parse("repeat 3 forward 10"),
        Err(ParseError::UnexpectedToken(
            Token::Identifier {
                literal: "forward".to_string()
            },
            vec![Token::LBracket]
        ))
    );
    assert_eq!(
        parse("make x 5"),
        Err(ParseError::UnexpectedToken(
            Token::Identifier {
                literal: "x".to_string()
            },
            vec![Token::Word {
                literal: "".to_string()
            }]
        ))
    );
    assert_eq!(
        parse("to 5"),
        Err(ParseError::UnexpectedToken(
            Token::Number {
                literal: "5".to_string()
            },
            vec![Token::Identifier {
                literal: "".to_string()
            }]
        ))
    );
    assert_eq!(
        parse("repeat [ fd 1 ]"),
        Err(ParseError::UnexpectedToken(
            Token::LBracket,
            vec![
                Token::Number {
                    literal: "".to_string()
                },
                Token::Variable {
                    name: "".to_string()
                },
            ]
        ))
    );
}

#[test]
fn parse_malformed_number() {
    let tokens = vec![
        Token::Identifier {
            literal: "fd".to_string(),
        },
        Token::Number {
            literal: "99999999999999999999999999".to_string(),
        },
    ];
    assert_eq!(
        Parser::new(&tokens).build_ast(),
        Err(ParseError::ParseInteger(
            "99999999999999999999999999".to_string()
        ))
    );
    assert_eq!(
        Parser::parse_number("12a"),
        Err(ParseError::ParseInteger("12a".to_string()))
    );
    assert_eq!(Parser::parse_number("-17"), Ok(num(-17)));
    assert_eq!(Parser::parse_number("+17"), Ok(num(17)));
}

#[test]
fn parse_numbers_as_the_machine_reads_them() {
    let texts = [
        "0",
        "-0",
        "+0",
        "007",
        "-",
        "+",
        "",
        "--1",
        "+-1",
        "1_000",
        " 1",
        "1 ",
        "9223372036854775807",
        "9223372036854775808",
        "-9223372036854775808",
        "-9223372036854775809",
        "2147483647",
        "2147483648",
        "-2147483648",
        "-2147483649",
        "00000000000000000000000000000000000001",
        "\u{661}",
    ];
    for text in texts.iter() {
        match text.parse::<isize>() {
            Ok(n) => assert_eq!(Parser::parse_number(text), Ok(num(n))),
            Err(_) => assert_eq!(
                Parser::parse_number(text),
                Err(ParseError::ParseInteger(text.to_string()))
            ),
        }
    }
}

#[test]
fn parse_expect_goes_by_kind() {
    let tokens = vec![
        Token::Identifier {
            literal: "name".to_string(),
        },
        Token::Operator(Operator::Addition),
    ];
    let mut parser = Parser::new(&tokens);
    assert_eq!(
        parser.expect(Token::Identifier {
            literal: "".to_string()
        }),
        Ok(&tokens[0])
    );
    assert_eq!(
        parser.expect(Token::Operator(Operator::Subtraction)),
        Err(ParseError::UnexpectedToken(
            Token::Operator(Operator::Addition),
            vec![Token::Operator(Operator::Subtraction)]
        ))
    );
    assert_eq!(parser.expect(Token::End), Err(ParseError::EOF));
}

#[test]
fn parse_failure_leaves_the_cursor_behind_the_offender() {
    let tokens = lex("fd 1 ] fd 2");
    let mut parser = Parser::new(&tokens);
    assert!(parser.build_ast().is_err());
    assert_eq!(
        parser.build_ast().unwrap().statements,
        vec![call("fd", vec![num(2)])]
    );
}

#[test]
fn parse_nested_procedure_body() {
    assert_eq!(
        parse("to sq :s repeat 4 [ fd :s rt 90 ] end sq 10")
            .unwrap()
            .statements,
        vec![
            Statement::ProcedureDeclaration {
                name: "sq".to_string(),
                body: AST {
                    statements: vec![Statement::Repeat {
                        count: num(4),
                        body: AST {
                            statements: vec![
                                call("fd", vec![var("s")]),
                                call("rt", vec![num(90)])
                            ],
                        },
                    }],
                },
                params: vec!["s".to_string()],
            },
            call("sq", vec![num(10)]),
        ]
    );
}

#[test]
fn clones_are_equal() {
    let ast = parse("to sq :s repeat 4 [ fd :s + 1 rt 90 ] make \"x 1 end sq 10").unwrap();
    assert_eq!(ast.clone(), ast);
    let tokens = lex("to sq :s fd \"w (1) end");
    let copies: Vec<Token> = tokens.iter().map(|t| t.clone()).collect();
    assert_eq!(copies, tokens);
}
