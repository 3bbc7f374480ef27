//! The failures of the three stages, and the messages that report them.

use crate::lexer::{Token, TokenView};
use crate::text::{decimal, decimal_of, view_each};
use vstd::prelude::*;
use vstd::string::StringExecFns;

verus! {

/// A failure of the evaluator.
#[derive(Debug, PartialEq)]
pub enum RuntimeError {
    /// A procedure of this name has been declared before.
    RedeclaredProcedure { name: String },
    /// The name is neither a command nor a declared procedure.
    ProcedureNotFound { name: String },
    /// No scope binds the variable.
    VariableNotFound { name: String },
    /// A call with another number of arguments than the `expected` one.
    ArgCountMismatch { expected: usize },
    /// A division by zero.
    DivisionByZero,
    /// An arithmetic result outside the range of the machine's integers.
    Overflow,
    /// A procedure call nested deeper than the evaluator allows.
    CallDepthExceeded,
    /// A broken internal rule, such as a malformed postfix sequence.
    Other(String),
}

/// What a [`RuntimeError`] holds.
pub enum RuntimeErrorView {
    RedeclaredProcedure { name: Seq<char> },
    ProcedureNotFound { name: Seq<char> },
    VariableNotFound { name: Seq<char> },
    ArgCountMismatch { expected: nat },
    DivisionByZero,
    Overflow,
    CallDepthExceeded,
    Other(Seq<char>),
}

impl View for RuntimeError {
    type V = RuntimeErrorView;

    open spec fn view(&self) -> RuntimeErrorView {
        match self {
            RuntimeError::RedeclaredProcedure { name } => RuntimeErrorView::RedeclaredProcedure {
                name: name@,
            },
            RuntimeError::ProcedureNotFound { name } => RuntimeErrorView::ProcedureNotFound {
                name: name@,
            },
            RuntimeError::VariableNotFound { name } => RuntimeErrorView::VariableNotFound {
                name: name@,
            },
            RuntimeError::ArgCountMismatch { expected } => RuntimeErrorView::ArgCountMismatch {
                expected: *expected as nat,
            },
            RuntimeError::DivisionByZero => RuntimeErrorView::DivisionByZero,
            RuntimeError::Overflow => RuntimeErrorView::Overflow,
            RuntimeError::CallDepthExceeded => RuntimeErrorView::CallDepthExceeded,
            RuntimeError::Other(message) => RuntimeErrorView::Other(message@),
        }
    }
}

impl RuntimeErrorView {
    /// The message shown to the user.
    pub open spec fn message(self) -> Seq<char> {
        match self {
            RuntimeErrorView::RedeclaredProcedure { name } => "Procedure '"@ + name
                + "' has already been declared"@,
            RuntimeErrorView::ProcedureNotFound { name } => "Procedure '"@ + name
                + "' does not exist"@,
            RuntimeErrorView::VariableNotFound { name } => "Variable :"@ + name
                + " has not been declared"@,
            RuntimeErrorView::ArgCountMismatch { expected } =>
                "Wrong number of arguments, expected "@ + decimal_of(expected),
            RuntimeErrorView::DivisionByZero => "Division by zero"@,
            RuntimeErrorView::Overflow => "Arithmetic overflow"@,
            RuntimeErrorView::CallDepthExceeded => "Procedure calls are nested too deeply"@,
            RuntimeErrorView::Other(message) => message,
        }
    }
}

impl RuntimeError {
    /// Renders the failure as one line of text.
    pub fn to_string(&self) -> (text: String)
        ensures
            text@ == self@.message(),
    {
        match self {
            RuntimeError::RedeclaredProcedure { name } => String::from_str("Procedure '").concat(
                name.as_str(),
            ).concat("' has already been declared"),
            RuntimeError::ProcedureNotFound { name } => String::from_str("Procedure '").concat(
                name.as_str(),
            ).concat("' does not exist"),
            RuntimeError::VariableNotFound { name } => String::from_str("Variable :").concat(
                name.as_str(),
            ).concat(" has not been declared"),
            RuntimeError::ArgCountMismatch { expected } => String::from_str(
                "Wrong number of arguments, expected ",
            ).concat(decimal(*expected).as_str()),
            RuntimeError::DivisionByZero => String::from_str("Division by zero"),
            RuntimeError::Overflow => String::from_str("Arithmetic overflow"),
            RuntimeError::CallDepthExceeded => String::from_str(
                "Procedure calls are nested too deeply",
            ),
            RuntimeError::Other(message) => message.clone(),
        }
    }
}

/// A failure of the parser.
#[derive(Debug, PartialEq)]
pub enum ParseError {
    /// A value of another kind stood where one of `expected` was needed.
    TypeMismatch { expected: String },
    /// The tokens ended where more were needed.
    EOF,
    /// The token found, and the tokens that could have stood there.
    UnexpectedToken(Token, Vec<Token>),
    /// A number literal that writes no integer of the machine.
    ParseInteger(String),
    /// A parenthesis without its partner.
    UnbalancedParens,
}

/// What a [`ParseError`] holds.
pub enum ParseErrorView {
    TypeMismatch { expected: Seq<char> },
    EOF,
    UnexpectedToken(TokenView, Seq<TokenView>),
    ParseInteger(Seq<char>),
    UnbalancedParens,
}

impl View for ParseError {
    type V = ParseErrorView;

    open spec fn view(&self) -> ParseErrorView {
        match self {
            ParseError::TypeMismatch { expected } => ParseErrorView::TypeMismatch {
                expected: expected@,
            },
            ParseError::EOF => ParseErrorView::EOF,
            ParseError::UnexpectedToken(found, expected) => ParseErrorView::UnexpectedToken(
                found@,
                view_each(expected@),
            ),
            ParseError::ParseInteger(literal) => ParseErrorView::ParseInteger(literal@),
            ParseError::UnbalancedParens => ParseErrorView::UnbalancedParens,
        }
    }
}

/// The labels of `tokens`, each followed by a comma and a space.
pub open spec fn listed(tokens: Seq<TokenView>) -> Seq<char>
    decreases tokens.len(),
{
    if tokens.len() == 0 {
        Seq::empty()
    } else {
        listed(tokens.drop_last()) + tokens.last().label() + ", "@
    }
}

impl ParseErrorView {
    /// The message shown to the user. The list of expected tokens loses its
    /// last two characters, which are the comma and the space behind its last
    /// label.
    pub open spec fn message(self) -> Seq<char> {
        match self {
            ParseErrorView::EOF => "Reached EOF (End of file) while parsing"@,
            ParseErrorView::UnexpectedToken(found, expected) => {
                let full = "Unexpected token: "@ + found.label() + ". Expected: "@ + listed(
                    expected,
                );
                full.take(full.len() - 2)
            },
            ParseErrorView::TypeMismatch { expected } =>
                "Found unexpected type while parsing, expected "@ + expected,
            ParseErrorView::ParseInteger(literal) => "Error while parsing integer: "@ + literal,
            ParseErrorView::UnbalancedParens => "Found unbalanced parentheses while parsing"@,
        }
    }
}

impl ParseError {
    /// Renders the failure as one line of text.
    pub fn to_string(&self) -> (text: String)
        ensures
            text@ == self@.message(),
    {
        match self {
            ParseError::EOF => String::from_str("Reached EOF (End of file) while parsing"),
            ParseError::UnexpectedToken(found, expected) => {
                proof {
                    reveal_strlit(", ");
                    reveal_strlit(". Expected: ");
                    reveal_strlit(". Expected");
                }
                let head = String::from_str("Unexpected token: ").concat(found.to_string());
                if expected.len() == 0 {
                    let text = head.concat(". Expected");
                    proof {
                        let full = head@ + ". Expected: "@ + listed(view_each(expected@));
                        assert(text@ =~= full.take(full.len() - 2));
                    }
                    return text;
                }
                let ghost start = head@ + ". Expected: "@;
                let mut text = head.concat(". Expected: ").concat(expected[0].to_string());
                let ghost labels = view_each(expected@);
                proof {
                    assert(labels[0] == expected[0]@);
                    assert(labels.take(1).last() == labels[0]);
                    assert(labels.take(1).drop_last() =~= Seq::<TokenView>::empty());
                    assert(listed(labels.take(1).drop_last()) =~= Seq::<char>::empty());
                    assert(listed(labels.take(1)) =~= labels[0].label() + ", "@);
                    assert(text@ + ", "@ =~= start + listed(labels.take(1)));
                }
                let mut i: usize = 1;
                while i < expected.len()
                    invariant
                        1 <= i <= expected.len(),
                        labels == view_each(expected@),
                        text@ + ", "@ == start + listed(labels.take(i as int)),
                    decreases expected.len() - i,
                {
                    let ghost before = text@;
                    text = text.concat(", ").concat(expected[i].to_string());
                    proof {
                        assert(labels.take(i + 1).drop_last() =~= labels.take(i as int));
                        assert(labels.take(i + 1).last() == expected[i as int]@);
                        assert(text@ + ", "@ =~= (before + ", "@) + labels[i as int].label()
                            + ", "@);
                        assert(text@ + ", "@ =~= start + listed(labels.take(i + 1)));
                    }
                    i += 1;
                }
                proof {
                    assert(labels.take(i as int) =~= labels);
                    let full = start + listed(labels);
                    assert(full == text@ + ", "@);
                    assert(text@ =~= full.take(full.len() - 2));
                }
                text
            },
            ParseError::TypeMismatch { expected } => String::from_str(
                "Found unexpected type while parsing, expected ",
            ).concat(expected.as_str()),
            ParseError::ParseInteger(literal) => String::from_str(
                "Error while parsing integer: ",
            ).concat(literal.as_str()),
            ParseError::UnbalancedParens => String::from_str(
                "Found unbalanced parentheses while parsing",
            ),
        }
    }
}

/// A failure of the lexer.
#[derive(Debug, Clone, Copy, PartialEq, Eq, Structural)]
pub enum LexError {
    /// No token starts at the cursor.
    UnrecognizedToken,
}

impl LexError {
    /// The message shown to the user.
    pub open spec fn message(self) -> Seq<char> {
        "Found unexpected token during lexing phase"@
    }

    /// Renders the failure as one line of text.
    pub fn to_string(&self) -> (text: String)
        ensures
            text@ == self.message(),
    {
        String::from_str("Found unexpected token during lexing phase")
    }
}

/// A failure of any of the three stages.
#[derive(Debug, PartialEq)]
pub enum LogoError {
    Lex(LexError),
    Parse(ParseError),
    Runtime(RuntimeError),
}

/// What a [`LogoError`] holds.
pub enum LogoErrorView {
    Lex(LexError),
    Parse(ParseErrorView),
    Runtime(RuntimeErrorView),
}

impl View for LogoError {
    type V = LogoErrorView;

    open spec fn view(&self) -> LogoErrorView {
        match self {
            LogoError::Lex(e) => LogoErrorView::Lex(*e),
            LogoError::Parse(e) => LogoErrorView::Parse(e@),
            LogoError::Runtime(e) => LogoErrorView::Runtime(e@),
        }
    }
}

impl LogoErrorView {
    /// The message shown to the user: that of the stage that failed.
    pub open spec fn message(self) -> Seq<char> {
        match self {
            LogoErrorView::Lex(e) => e.message(),
            LogoErrorView::Parse(e) => e.message(),
            LogoErrorView::Runtime(e) => e.message(),
        }
    }
}

impl LogoError {
    /// Renders the failure as one line of text.
    pub fn to_string(&self) -> (text: String)
        ensures
            text@ == self@.message(),
    {
        match self {
            LogoError::Lex(e) => e.to_string(),
            LogoError::Parse(e) => e.to_string(),
            LogoError::Runtime(e) => e.to_string(),
        }
    }
}

} // verus!
