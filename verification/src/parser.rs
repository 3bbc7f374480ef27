//! Syntax analysis: from tokens to statements.

use crate::error::{ParseError, ParseErrorView};
use crate::lexer::{Operator, Token, TokenView};
use crate::text::{integer_of, parse_integer, view_each};
use vstd::prelude::*;

verus! {

/// A phrase that evaluates to a value.
#[derive(Debug, PartialEq)]
pub enum Expression {
    /// An arithmetic expression, flattened to postfix order.
    ArithmeticExpression { postfix: Vec<Expression> },
    Operator { op: Operator },
    Number { val: isize },
    Variable { name: String },
}

/// A phrase that has an effect and no value.
#[derive(Debug, PartialEq)]
pub enum Statement {
    Repeat { count: Expression, body: AST },
    VariableDeclaration { name: String, val: Box<Expression> },
    ProcedureDeclaration { name: String, body: AST, params: Vec<String> },
    ProcedureCall { name: String, args: Vec<Expression> },
}

/// A parsed program: statements in source order.
#[derive(Debug, PartialEq)]
pub struct AST {
    pub statements: Vec<Statement>,
}

/// What an [`Expression`] holds.
pub enum ExprView {
    ArithmeticExpression { postfix: Seq<ExprView> },
    Operator { op: Operator },
    Number { val: int },
    Variable { name: Seq<char> },
}

/// What a [`Statement`] holds.
pub enum StmtView {
    Repeat { count: ExprView, body: Seq<StmtView> },
    VariableDeclaration { name: Seq<char>, val: ExprView },
    ProcedureDeclaration { name: Seq<char>, body: Seq<StmtView>, params: Seq<Seq<char>> },
    ProcedureCall { name: Seq<char>, args: Seq<ExprView> },
}

impl View for Expression {
    type V = ExprView;

    open spec fn view(&self) -> ExprView
        decreases self,
    {
        match self {
            Expression::ArithmeticExpression { postfix } => ExprView::ArithmeticExpression {
                postfix: Seq::new(
                    postfix@.len(),
                    |i: int|
                        if 0 <= i < postfix@.len() {
                            postfix@[i]@
                        } else {
                            ExprView::Number { val: 0 }
                        },
                ),
            },
            Expression::Operator { op } => ExprView::Operator { op: *op },
            Expression::Number { val } => ExprView::Number { val: *val as int },
            Expression::Variable { name } => ExprView::Variable { name: name@ },
        }
    }
}

impl View for Statement {
    type V = StmtView;

    open spec fn view(&self) -> StmtView
        decreases self,
    {
        match self {
            Statement::Repeat { count, body } => StmtView::Repeat {
                count: count@,
                body: Seq::new(
                    body.statements@.len(),
                    |i: int|
                        if 0 <= i < body.statements@.len() {
                            body.statements@[i]@
                        } else {
                            StmtView::ProcedureCall { name: Seq::empty(), args: Seq::empty() }
                        },
                ),
            },
            Statement::VariableDeclaration { name, val } => StmtView::VariableDeclaration {
                name: name@,
                val: val@,
            },
            Statement::ProcedureDeclaration { name, body, params } => {
                StmtView::ProcedureDeclaration {
                    name: name@,
                    body: Seq::new(
                        body.statements@.len(),
                        |i: int|
                            if 0 <= i < body.statements@.len() {
                                body.statements@[i]@
                            } else {
                                StmtView::ProcedureCall { name: Seq::empty(), args: Seq::empty() }
                            },
                    ),
                    params: view_each(params@),
                }
            },
            Statement::ProcedureCall { name, args } => StmtView::ProcedureCall {
                name: name@,
                args: view_each(args@),
            },
        }
    }
}

impl View for AST {
    type V = Seq<StmtView>;

    open spec fn view(&self) -> Seq<StmtView> {
        view_each(self.statements@)
    }
}

/// The view of a postfix expression is made of the views of its items.
pub proof fn lemma_arithmetic_view(e: Expression)
    requires
        e is ArithmeticExpression,
    ensures
        e@ == (ExprView::ArithmeticExpression { postfix: view_each(e->postfix@) }),
{
    assert(e@->postfix =~= view_each(e->postfix@));
}

/// The view of a statement with a body holds the view of that body.
pub proof fn lemma_body_view(s: Statement)
    ensures
        s is Repeat ==> s@ == (StmtView::Repeat {
            count: s->count@,
            body: s->Repeat_body@,
        }),
        s is ProcedureDeclaration ==> s@ == (StmtView::ProcedureDeclaration {
            name: s->ProcedureDeclaration_name@,
            body: s->ProcedureDeclaration_body@,
            params: view_each(s->params@),
        }),
{
    match s {
        Statement::Repeat { count, body } => {
            assert(s@->Repeat_body =~= body@);
        },
        Statement::ProcedureDeclaration { name, body, params } => {
            assert(s@->ProcedureDeclaration_body =~= body@);
        },
        _ => {},
    }
}

/// A copy of `names`.
pub fn clone_names(names: &Vec<String>) -> (copy: Vec<String>)
    ensures
        view_each(copy@) == view_each(names@),
{
    let mut copy: Vec<String> = Vec::new();
    let mut i: usize = 0;
    while i < names.len()
        invariant
            i <= names.len(),
            copy.len() == i,
            forall|k: int| 0 <= k < i ==> copy@[k]@ == names@[k]@,
        decreases names.len() - i,
    {
        copy.push(names[i].clone());
        i += 1;
    }
    assert(view_each(copy@) =~= view_each(names@));
    copy
}

/// A copy of `items`.
pub fn clone_expressions(items: &Vec<Expression>) -> (copy: Vec<Expression>)
    ensures
        view_each(copy@) == view_each(items@),
    decreases items,
{
    let mut copy: Vec<Expression> = Vec::new();
    let mut i: usize = 0;
    while i < items.len()
        invariant
            i <= items.len(),
            copy.len() == i,
            forall|k: int| 0 <= k < i ==> copy@[k]@ == items@[k]@,
        decreases items.len() - i,
    {
        proof {
            vstd::std_specs::vec::axiom_vec_index_decreases(*items, i as int);
        }
        copy.push(items[i].clone());
        i += 1;
    }
    assert(view_each(copy@) =~= view_each(items@));
    copy
}

impl Clone for Expression {
    fn clone(&self) -> (copy: Expression)
        ensures
            copy@ == self@,
        decreases self,
    {
        match self {
            Expression::ArithmeticExpression { postfix } => {
                let copy = Expression::ArithmeticExpression {
                    postfix: clone_expressions(postfix),
                };
                proof {
                    lemma_arithmetic_view(copy);
                    lemma_arithmetic_view(*self);
                }
                copy
            },
            Expression::Operator { op } => Expression::Operator { op: *op },
            Expression::Number { val } => Expression::Number { val: *val },
            Expression::Variable { name } => Expression::Variable { name: name.clone() },
        }
    }
}

impl Clone for Statement {
    fn clone(&self) -> (copy: Statement)
        ensures
            copy@ == self@,
        decreases self,
    {
        let copy = match self {
            Statement::Repeat { count, body } => Statement::Repeat {
                count: count.clone(),
                body: body.clone(),
            },
            Statement::VariableDeclaration { name, val } => {
                let value: Expression = (**val).clone();
                Statement::VariableDeclaration { name: name.clone(), val: Box::new(value) }
            },
            Statement::ProcedureDeclaration { name, body, params } => {
                Statement::ProcedureDeclaration {
                    name: name.clone(),
                    body: body.clone(),
                    params: clone_names(params),
                }
            },
            Statement::ProcedureCall { name, args } => Statement::ProcedureCall {
                name: name.clone(),
                args: clone_expressions(args),
            },
        };
        proof {
            lemma_body_view(copy);
            lemma_body_view(*self);
        }
        copy
    }
}

impl Clone for AST {
    fn clone(&self) -> (copy: AST)
        ensures
            copy@ == self@,
        decreases self,
    {
        let mut statements: Vec<Statement> = Vec::new();
        let mut i: usize = 0;
        while i < self.statements.len()
            invariant
                i <= self.statements.len(),
                statements.len() == i,
                forall|k: int| 0 <= k < i ==> statements@[k]@ == self.statements@[k]@,
            decreases self.statements.len() - i,
        {
            proof {
                vstd::std_specs::vec::axiom_vec_index_decreases(self.statements, i as int);
            }
            statements.push(self.statements[i].clone());
            i += 1;
        }
        let copy = AST { statements };
        assert(copy@ =~= self@);
        copy
    }
}

impl AST {
    /// The empty program.
    pub fn new() -> (ast: AST)
        ensures
            ast@ == Seq::<StmtView>::empty(),
    {
        let ast = AST { statements: Vec::new() };
        assert(ast@ =~= Seq::<StmtView>::empty());
        ast
    }
}

/// What parsing one construct comes to: the construct or the failure, and
/// where the cursor stands afterwards.
pub struct Parsed<T> {
    pub outcome: Result<T, ParseErrorView>,
    pub next: int,
}

/// `parsed` with `front` put before its items.
pub open spec fn prepend<T>(front: Seq<T>, parsed: Parsed<Seq<T>>) -> Parsed<Seq<T>> {
    Parsed {
        outcome: match parsed.outcome {
            Ok(items) => Ok(front + items),
            Err(e) => Err(e),
        },
        next: parsed.next,
    }
}

/// The token at `from` where it is of the kind of `wanted`.
pub open spec fn expected(tokens: Seq<TokenView>, from: int, wanted: TokenView) -> Parsed<
    TokenView,
> {
    if !(0 <= from < tokens.len()) {
        Parsed { outcome: Err(ParseErrorView::EOF), next: from }
    } else if tokens[from].same_kind(wanted) {
        Parsed { outcome: Ok(tokens[from]), next: from + 1 }
    } else {
        Parsed {
            outcome: Err(ParseErrorView::UnexpectedToken(tokens[from], seq![wanted])),
            next: from + 1,
        }
    }
}

/// An entry of the operator stack.
#[derive(Debug, Clone, Copy, PartialEq, Eq, Structural)]
pub enum Pending {
    /// An operator that waits for its right operand.
    Op(Operator),
    /// The mark that a left parenthesis leaves.
    Open,
}

/// The state of the conversion to postfix order: the operator stack, its top
/// last, and the output queue.
pub struct Yard {
    pub stack: Seq<Pending>,
    pub output: Seq<ExprView>,
}

impl Yard {
    /// The yard after the top of the stack has moved to the output.
    pub open spec fn moved(self, op: Operator) -> Yard {
        Yard {
            stack: self.stack.drop_last(),
            output: self.output.push(ExprView::Operator { op }),
        }
    }

    /// The yard with `item` at the end of the output.
    pub open spec fn emit(self, item: ExprView) -> Yard {
        Yard { stack: self.stack, output: self.output.push(item) }
    }

    /// The yard with `entry` on top of the stack.
    pub open spec fn hold(self, entry: Pending) -> Yard {
        Yard { stack: self.stack.push(entry), output: self.output }
    }

    /// Moves operators from the top of the stack to the output as long as
    /// they bind at least as tightly as `binding`.
    pub open spec fn yield_to(self, binding: nat) -> Yard
        decreases self.stack.len(),
    {
        if self.stack.len() > 0 {
            match self.stack.last() {
                Pending::Op(op) => if op.binding() >= binding {
                    self.moved(op).yield_to(binding)
                } else {
                    self
                },
                Pending::Open => self,
            }
        } else {
            self
        }
    }

    /// Moves operators to the output down to the nearest mark, and drops the
    /// mark. `None` where the stack holds no mark.
    pub open spec fn close(self) -> Option<Yard>
        decreases self.stack.len(),
    {
        if self.stack.len() > 0 {
            match self.stack.last() {
                Pending::Op(op) => self.moved(op).close(),
                Pending::Open => Some(Yard { stack: self.stack.drop_last(), output: self.output }),
            }
        } else {
            None
        }
    }

    /// Moves all operators to the output, the top first. `None` where the
    /// stack holds a mark.
    pub open spec fn finish(self) -> Option<Seq<ExprView>>
        decreases self.stack.len(),
    {
        if self.stack.len() > 0 {
            match self.stack.last() {
                Pending::Op(op) => self.moved(op).finish(),
                Pending::Open => None,
            }
        } else {
            Some(self.output)
        }
    }

    /// The yard after one token of an arithmetic expression.
    pub open spec fn step(self, token: TokenView) -> Result<Yard, ParseErrorView> {
        match token {
            TokenView::Number { literal } => match integer_of(literal) {
                Some(val) => Ok(self.emit(ExprView::Number { val })),
                None => Err(ParseErrorView::ParseInteger(literal)),
            },
            TokenView::Variable { name } => Ok(self.emit(ExprView::Variable { name })),
            TokenView::Operator(op) => Ok(self.yield_to(op.binding()).hold(Pending::Op(op))),
            TokenView::LParen => Ok(self.hold(Pending::Open)),
            TokenView::RParen => match self.close() {
                Some(yard) => Ok(yard),
                None => Err(ParseErrorView::UnbalancedParens),
            },
            _ => Ok(self),
        }
    }

    /// The yard after the tokens from `from` up to `end`. A failure stops the
    /// run behind the token that caused it.
    pub open spec fn run(self, tokens: Seq<TokenView>, from: int, end: int) -> Parsed<Yard>
        decreases end - from,
    {
        if from >= end || !(0 <= from < tokens.len()) {
            Parsed { outcome: Ok(self), next: from }
        } else {
            match self.step(tokens[from]) {
                Ok(yard) => yard.run(tokens, from + 1, end),
                Err(e) => Parsed { outcome: Err(e), next: from + 1 },
            }
        }
    }
}

/// Whether an arithmetic expression goes on with `token`: an operand, an
/// operator or a parenthesis.
pub open spec fn in_arithmetic(token: TokenView) -> bool {
    token is Number || token is Variable || token is Operator || token is LParen
        || token is RParen
}

/// Where the longest run of arithmetic tokens from `from` ends.
pub open spec fn arithmetic_end(tokens: Seq<TokenView>, from: int) -> int
    decreases tokens.len() - from,
{
    if 0 <= from < tokens.len() && in_arithmetic(tokens[from]) {
        arithmetic_end(tokens, from + 1)
    } else {
        from
    }
}

/// The arithmetic expression made of the longest run of arithmetic tokens from
/// `from`, converted to postfix order, with `seed` already in the output.
pub open spec fn arithmetic(tokens: Seq<TokenView>, from: int, seed: Seq<ExprView>) -> Parsed<
    ExprView,
> {
    let end = arithmetic_end(tokens, from);
    let run = (Yard { stack: Seq::empty(), output: seed }).run(tokens, from, end);
    match run.outcome {
        Err(e) => Parsed { outcome: Err(e), next: run.next },
        Ok(yard) => match yard.finish() {
            Some(postfix) => Parsed {
                outcome: Ok(ExprView::ArithmeticExpression { postfix }),
                next: end,
            },
            None => Parsed { outcome: Err(ParseErrorView::UnbalancedParens), next: end },
        },
    }
}

/// The tokens that may begin an expression which starts with an operand.
pub open spec fn operand_kinds() -> Seq<TokenView> {
    seq![
        TokenView::Number { literal: Seq::empty() },
        TokenView::Variable { name: Seq::empty() },
    ]
}

/// The operand `first`, which ends before `next`, or the arithmetic expression
/// that it begins where an operator follows it.
pub open spec fn operand_then(tokens: Seq<TokenView>, next: int, first: ExprView) -> Parsed<
    ExprView,
> {
    if 0 <= next < tokens.len() && tokens[next] is Operator {
        arithmetic(tokens, next, seq![first])
    } else {
        Parsed { outcome: Ok(first), next }
    }
}

/// The expression that starts at `from`: a number or a variable alone, or an
/// arithmetic expression where an operator follows it or a left parenthesis
/// begins it.
pub open spec fn expression(tokens: Seq<TokenView>, from: int) -> Parsed<ExprView> {
    if !(0 <= from < tokens.len()) {
        Parsed { outcome: Err(ParseErrorView::EOF), next: from }
    } else {
        match tokens[from] {
            TokenView::LParen => arithmetic(tokens, from, Seq::empty()),
            TokenView::Number { literal } => match integer_of(literal) {
                Some(val) => operand_then(tokens, from + 1, ExprView::Number { val }),
                None => Parsed {
                    outcome: Err(ParseErrorView::ParseInteger(literal)),
                    next: from + 1,
                },
            },
            TokenView::Variable { name } => operand_then(
                tokens,
                from + 1,
                ExprView::Variable { name },
            ),
            other => Parsed {
                outcome: Err(ParseErrorView::UnexpectedToken(other, operand_kinds())),
                next: from + 1,
            },
        }
    }
}

/// Whether `token` can begin an argument of a call.
pub open spec fn begins_argument(token: TokenView) -> bool {
    token is Variable || token is Number || token is LParen
}

/// The arguments of a call: expressions from `from` on, as long as the next
/// token can begin one.
pub open spec fn arguments(tokens: Seq<TokenView>, from: int) -> Parsed<Seq<ExprView>>
    decreases tokens.len() - from,
    via arguments_terminates
{
    if 0 <= from < tokens.len() && begins_argument(tokens[from]) {
        let first = expression(tokens, from);
        match first.outcome {
            Ok(e) => prepend(seq![e], arguments(tokens, first.next)),
            Err(e) => Parsed { outcome: Err(e), next: first.next },
        }
    } else {
        Parsed { outcome: Ok(Seq::empty()), next: from }
    }
}

/// The names of the variable tokens from `from` on, as many as follow.
pub open spec fn parameters(tokens: Seq<TokenView>, from: int) -> Seq<Seq<char>>
    decreases tokens.len() - from,
{
    if 0 <= from < tokens.len() && tokens[from] is Variable {
        seq![tokens[from]->name] + parameters(tokens, from + 1)
    } else {
        Seq::empty()
    }
}

/// The tokens that may begin a statement.
pub open spec fn statement_kinds() -> Seq<TokenView> {
    seq![
        TokenView::Repeat,
        TokenView::Make,
        TokenView::To,
        TokenView::Identifier { literal: Seq::empty() },
    ]
}

/// The rest of a loop whose keyword ends before `from`: the count, a left
/// bracket, and the body up to the right bracket that closes it.
pub open spec fn repeat_statement(tokens: Seq<TokenView>, from: int) -> Parsed<StmtView>
    decreases tokens.len() - from, 0nat,
    via repeat_statement_terminates
{
    let count = expression(tokens, from);
    match count.outcome {
        Err(e) => Parsed { outcome: Err(e), next: count.next },
        Ok(times) => {
            let open = expected(tokens, count.next, TokenView::LBracket);
            match open.outcome {
                Err(e) => Parsed { outcome: Err(e), next: open.next },
                Ok(_) => {
                    let body = block(tokens, open.next, TokenView::RBracket);
                    Parsed {
                        outcome: match body.outcome {
                            Ok(statements) => Ok(
                                StmtView::Repeat { count: times, body: statements },
                            ),
                            Err(e) => Err(e),
                        },
                        next: body.next,
                    }
                },
            }
        },
    }
}

/// The rest of a variable declaration whose keyword ends before `from`: a
/// quoted word, which names the variable, and the value.
pub open spec fn assignment_statement(tokens: Seq<TokenView>, from: int) -> Parsed<StmtView> {
    let word = expected(tokens, from, TokenView::Word { literal: Seq::empty() });
    match word.outcome {
        Err(e) => Parsed { outcome: Err(e), next: word.next },
        Ok(name) => {
            let value = expression(tokens, word.next);
            Parsed {
                outcome: match value.outcome {
                    Ok(val) => Ok(StmtView::VariableDeclaration { name: name->Word_literal, val }),
                    Err(e) => Err(e),
                },
                next: value.next,
            }
        },
    }
}

/// The rest of a procedure declaration whose keyword ends before `from`: a
/// name, the variables that follow it as parameters, and the body up to the
/// end keyword that closes it.
pub open spec fn declaration_statement(tokens: Seq<TokenView>, from: int) -> Parsed<StmtView>
    decreases tokens.len() - from, 0nat,
    via declaration_statement_terminates
{
    let ident = expected(tokens, from, TokenView::Identifier { literal: Seq::empty() });
    match ident.outcome {
        Err(e) => Parsed { outcome: Err(e), next: ident.next },
        Ok(name) => {
            let params = parameters(tokens, ident.next);
            let body = block(tokens, ident.next + params.len(), TokenView::End);
            Parsed {
                outcome: match body.outcome {
                    Ok(statements) => Ok(
                        StmtView::ProcedureDeclaration {
                            name: name->Identifier_literal,
                            body: statements,
                            params,
                        },
                    ),
                    Err(e) => Err(e),
                },
                next: body.next,
            }
        },
    }
}

/// The call of `name`, whose arguments start at `from`.
pub open spec fn call_statement(tokens: Seq<TokenView>, from: int, name: Seq<char>) -> Parsed<
    StmtView,
> {
    let args = arguments(tokens, from);
    Parsed {
        outcome: match args.outcome {
            Ok(items) => Ok(StmtView::ProcedureCall { name, args: items }),
            Err(e) => Err(e),
        },
        next: args.next,
    }
}

/// The statement whose leading token stands at `from`: a loop, a variable
/// declaration, a procedure declaration, or a call by a bare name.
pub open spec fn statement(tokens: Seq<TokenView>, from: int) -> Parsed<StmtView>
    decreases tokens.len() - from, 0nat,
{
    if !(0 <= from < tokens.len()) {
        Parsed { outcome: Err(ParseErrorView::EOF), next: from }
    } else {
        match tokens[from] {
            TokenView::Repeat => repeat_statement(tokens, from + 1),
            TokenView::Make => assignment_statement(tokens, from + 1),
            TokenView::To => declaration_statement(tokens, from + 1),
            TokenView::Identifier { literal } => call_statement(tokens, from + 1, literal),
            other => Parsed {
                outcome: Err(ParseErrorView::UnexpectedToken(other, statement_kinds())),
                next: from + 1,
            },
        }
    }
}

/// The statements from `from` up to the first token of the kind of `closer`
/// that stands where a statement could begin; the cursor ends behind it. The
/// end of the tokens before that is a failure.
pub open spec fn block(tokens: Seq<TokenView>, from: int, closer: TokenView) -> Parsed<
    Seq<StmtView>,
>
    decreases tokens.len() - from, 1nat,
    via block_terminates
{
    if !(0 <= from < tokens.len()) {
        Parsed { outcome: Err(ParseErrorView::EOF), next: from }
    } else if tokens[from].same_kind(closer) {
        Parsed { outcome: Ok(Seq::empty()), next: from + 1 }
    } else {
        let first = statement(tokens, from);
        match first.outcome {
            // a statement is never empty, so the cursor has moved on
            Ok(s) if from < first.next <= tokens.len() => prepend(
                seq![s],
                block(tokens, first.next, closer),
            ),
            Ok(_) => Parsed { outcome: Err(ParseErrorView::EOF), next: first.next },
            Err(e) => Parsed { outcome: Err(e), next: first.next },
        }
    }
}

/// The statements from `from` up to the end of the tokens.
pub open spec fn program(tokens: Seq<TokenView>, from: int) -> Parsed<Seq<StmtView>>
    decreases tokens.len() - from,
    via program_terminates
{
    if !(0 <= from < tokens.len()) {
        Parsed { outcome: Ok(Seq::empty()), next: from }
    } else {
        let first = statement(tokens, from);
        match first.outcome {
            Ok(s) => prepend(seq![s], program(tokens, first.next)),
            Err(e) => Parsed { outcome: Err(e), next: first.next },
        }
    }
}

/// A run of arithmetic tokens ends at or behind its start, within the tokens.
pub proof fn lemma_arithmetic_end_bounds(tokens: Seq<TokenView>, from: int)
    ensures
        from <= arithmetic_end(tokens, from),
        0 <= from <= tokens.len() ==> arithmetic_end(tokens, from) <= tokens.len(),
        0 <= from < tokens.len() && in_arithmetic(tokens[from]) ==> from < arithmetic_end(
            tokens,
            from,
        ),
    decreases tokens.len() - from,
{
    if 0 <= from < tokens.len() && in_arithmetic(tokens[from]) {
        lemma_arithmetic_end_bounds(tokens, from + 1);
    }
}

/// The cursor of a run of the yard stays between its start and its end.
pub proof fn lemma_run_bounds(yard: Yard, tokens: Seq<TokenView>, from: int, end: int)
    requires
        from <= end,
    ensures
        from <= yard.run(tokens, from, end).next <= end,
        yard.run(tokens, from, end).outcome is Ok && end <= tokens.len() && 0 <= from
            ==> yard.run(tokens, from, end).next == end,
    decreases end - from,
{
    if from >= end || !(0 <= from < tokens.len()) {
    } else {
        match yard.step(tokens[from]) {
            Ok(next) => lemma_run_bounds(next, tokens, from + 1, end),
            Err(_) => {},
        }
    }
}

/// An arithmetic expression ends within the tokens, at or behind its start.
pub proof fn lemma_arithmetic_bounds(tokens: Seq<TokenView>, from: int, seed: Seq<ExprView>)
    ensures
        from <= arithmetic(tokens, from, seed).next,
        0 <= from <= tokens.len() ==> arithmetic(tokens, from, seed).next <= tokens.len(),
        0 <= from < tokens.len() && in_arithmetic(tokens[from]) ==> from < arithmetic(
            tokens,
            from,
            seed,
        ).next,
{
    lemma_arithmetic_end_bounds(tokens, from);
    let end = arithmetic_end(tokens, from);
    lemma_run_bounds(Yard { stack: Seq::empty(), output: seed }, tokens, from, end);
    if 0 <= from < tokens.len() && in_arithmetic(tokens[from]) {
        let start = Yard { stack: Seq::empty(), output: seed };
        match start.step(tokens[from]) {
            Ok(next) => lemma_run_bounds(next, tokens, from + 1, end),
            Err(_) => {},
        }
    }
}

/// An expression takes at least one token where there is one, and ends
/// within the tokens.
pub proof fn lemma_expression_bounds(tokens: Seq<TokenView>, from: int)
    ensures
        0 <= from < tokens.len() ==> from < expression(tokens, from).next <= tokens.len(),
        from <= expression(tokens, from).next,
{
    if 0 <= from < tokens.len() {
        lemma_arithmetic_bounds(tokens, from, Seq::empty());
        match tokens[from] {
            TokenView::Number { literal } => {
                if let Some(val) = integer_of(literal) {
                    lemma_arithmetic_bounds(tokens, from + 1, seq![ExprView::Number { val }]);
                }
            },
            TokenView::Variable { name } => {
                lemma_arithmetic_bounds(tokens, from + 1, seq![ExprView::Variable { name }]);
            },
            _ => {},
        }
    }
}

#[via_fn]
proof fn arguments_terminates(tokens: Seq<TokenView>, from: int) {
    lemma_expression_bounds(tokens, from);
}

/// The arguments of a call end within the tokens, at or behind their start.
pub proof fn lemma_arguments_bounds(tokens: Seq<TokenView>, from: int)
    requires
        0 <= from <= tokens.len(),
    ensures
        from <= arguments(tokens, from).next <= tokens.len(),
    decreases tokens.len() - from,
{
    if 0 <= from < tokens.len() && begins_argument(tokens[from]) {
        lemma_expression_bounds(tokens, from);
        if expression(tokens, from).outcome is Ok {
            lemma_arguments_bounds(tokens, expression(tokens, from).next);
        }
    }
}

/// The parameters of a declaration end within the tokens.
pub proof fn lemma_parameters_bounds(tokens: Seq<TokenView>, from: int)
    requires
        0 <= from <= tokens.len(),
    ensures
        from + parameters(tokens, from).len() <= tokens.len(),
    decreases tokens.len() - from,
{
    if 0 <= from < tokens.len() && tokens[from] is Variable {
        lemma_parameters_bounds(tokens, from + 1);
    }
}

#[via_fn]
proof fn repeat_statement_terminates(tokens: Seq<TokenView>, from: int) {
    lemma_expression_bounds(tokens, from);
}

#[via_fn]
proof fn declaration_statement_terminates(tokens: Seq<TokenView>, from: int) {
    if 0 <= from + 1 <= tokens.len() {
        lemma_parameters_bounds(tokens, from + 1);
    }
}

#[via_fn]
proof fn block_terminates(tokens: Seq<TokenView>, from: int, closer: TokenView) {
}

/// A statement takes at least its leading token and ends within the tokens.
pub proof fn lemma_statement_bounds(tokens: Seq<TokenView>, from: int)
    requires
        0 <= from < tokens.len(),
    ensures
        from < statement(tokens, from).next <= tokens.len(),
    decreases tokens.len() - from, 0nat,
{
    match tokens[from] {
        TokenView::Repeat => {
            lemma_expression_bounds(tokens, from + 1);
            let count = expression(tokens, from + 1);
            if count.outcome is Ok {
                let open = expected(tokens, count.next, TokenView::LBracket);
                if open.outcome is Ok {
                    lemma_block_bounds(tokens, open.next, TokenView::RBracket);
                }
            }
        },
        TokenView::Make => {
            let word = expected(tokens, from + 1, TokenView::Word { literal: Seq::empty() });
            if word.outcome is Ok {
                lemma_expression_bounds(tokens, word.next);
            }
        },
        TokenView::To => {
            let ident = expected(
                tokens,
                from + 1,
                TokenView::Identifier { literal: Seq::empty() },
            );
            if ident.outcome is Ok {
                lemma_parameters_bounds(tokens, ident.next);
                lemma_block_bounds(
                    tokens,
                    ident.next + parameters(tokens, ident.next).len(),
                    TokenView::End,
                );
            }
        },
        TokenView::Identifier { literal } => {
            lemma_arguments_bounds(tokens, from + 1);
        },
        _ => {},
    }
}

/// A block ends within the tokens, at or behind its start.
pub proof fn lemma_block_bounds(tokens: Seq<TokenView>, from: int, closer: TokenView)
    requires
        0 <= from <= tokens.len(),
    ensures
        from <= block(tokens, from, closer).next <= tokens.len(),
    decreases tokens.len() - from, 1nat,
{
    if from < tokens.len() && !tokens[from].same_kind(closer) {
        lemma_statement_bounds(tokens, from);
        let first = statement(tokens, from);
        if first.outcome is Ok {
            lemma_block_bounds(tokens, first.next, closer);
        }
    }
}

#[via_fn]
proof fn program_terminates(tokens: Seq<TokenView>, from: int) {
    if 0 <= from < tokens.len() {
        lemma_statement_bounds(tokens, from);
    }
}

/// A program ends within the tokens; where it parses, at their end.
pub proof fn lemma_program_bounds(tokens: Seq<TokenView>, from: int)
    requires
        0 <= from <= tokens.len(),
    ensures
        from <= program(tokens, from).next <= tokens.len(),
        program(tokens, from).outcome is Ok ==> program(tokens, from).next == tokens.len(),
    decreases tokens.len() - from,
{
    if from < tokens.len() {
        lemma_statement_bounds(tokens, from);
        let first = statement(tokens, from);
        if first.outcome is Ok {
            lemma_program_bounds(tokens, first.next);
        }
    }
}

/// Whether `result` is what `outcome` describes.
pub open spec fn yields<T: View>(
    result: Result<T, ParseError>,
    outcome: Result<T::V, ParseErrorView>,
) -> bool {
    match (result, outcome) {
        (Ok(value), Ok(wanted)) => value@ == wanted,
        (Err(e), Err(wanted)) => e@ == wanted,
        _ => false,
    }
}

/// Whether `result` holds the items that `outcome` describes.
pub open spec fn yields_each<T: View>(
    result: Result<Vec<T>, ParseError>,
    outcome: Result<Seq<T::V>, ParseErrorView>,
) -> bool {
    match (result, outcome) {
        (Ok(items), Ok(wanted)) => view_each(items@) == wanted,
        (Err(e), Err(wanted)) => e@ == wanted,
        _ => false,
    }
}

/// The yard that an operator stack and an output queue stand for.
pub open spec fn yard_of(stack: Vec<Pending>, output: Vec<Expression>) -> Yard {
    Yard { stack: stack@, output: view_each(output@) }
}

/// A cursor over a token list that builds statements from it.
pub struct Parser<'a> {
    tokens: &'a Vec<Token>,
    position: usize,
}

impl<'a> Parser<'a> {
    #[verifier::type_invariant]
    spec fn in_bounds(self) -> bool {
        self.position <= self.tokens.len()
    }

    /// The tokens being parsed.
    pub closed spec fn tokens(self) -> Seq<TokenView> {
        view_each(self.tokens@)
    }

    /// The cursor: how many tokens lie behind it.
    pub closed spec fn position(self) -> int {
        self.position as int
    }

    /// A parser at the start of `tokens`.
    pub fn new(tokens: &'a Vec<Token>) -> (parser: Self)
        ensures
            parser.tokens() == view_each(tokens@),
            parser.position() == 0,
    {
        Parser { tokens, position: 0 }
    }

    /// Parses statements up to the end of the tokens. On failure the
    /// statements built so far are dropped.
    pub fn build_ast(&mut self) -> (result: Result<AST, ParseError>)
        ensures
            final(self).tokens() == old(self).tokens(),
            final(self).position() == program(old(self).tokens(), old(self).position()).next,
            yields(result, program(old(self).tokens(), old(self).position()).outcome),
            result is Ok ==> final(self).position() == old(self).tokens().len(),
    {
        proof {
            use_type_invariant(&*self);
            lemma_program_bounds(self.tokens(), self.position());
        }
        let mut statements: Vec<Statement> = Vec::new();
        loop
            invariant
                self.tokens() == old(self).tokens(),
                program(old(self).tokens(), old(self).position()) == prepend(
                    view_each(statements@),
                    program(self.tokens(), self.position()),
                ),
            decreases self.tokens().len() - self.position(),
        {
            proof {
                use_type_invariant(&*self);
                assert(view_each(statements@) + Seq::<StmtView>::empty() =~= view_each(
                    statements@,
                ));
            }
            if self.position >= self.tokens.len() {
                return Ok(AST { statements });
            }
            proof {
                lemma_statement_bounds(self.tokens(), self.position());
            }
            let ghost before = view_each(statements@);
            let ghost first = statement(self.tokens(), self.position());
            let ghost rest = program(self.tokens(), first.next);
            match self.parse_statement() {
                Ok(s) => {
                    statements.push(s);
                    proof {
                        assert(view_each(statements@) =~= before + seq![s@]);
                        if let Ok(more) = rest.outcome {
                            assert(before + (seq![s@] + more) =~= view_each(statements@) + more);
                        }
                    }
                },
                Err(e) => {
                    return Err(e);
                },
            }
        }
    }

    /// Takes the next token, which has to be of the kind of `wanted`.
    pub fn expect(&mut self, wanted: Token) -> (result: Result<&'a Token, ParseError>)
        ensures
            final(self).tokens() == old(self).tokens(),
            final(self).position() == expected(
                old(self).tokens(),
                old(self).position(),
                wanted@,
            ).next,
            (match expected(old(self).tokens(), old(self).position(), wanted@).outcome {
                Ok(token) => result matches Ok(found) && found@ == token,
                Err(e) => result matches Err(err) && err@ == e,
            }),
    {
        proof {
            use_type_invariant(&*self);
        }
        if self.position >= self.tokens.len() {
            return Err(ParseError::EOF);
        }
        let token = &self.tokens[self.position];
        self.position = self.position + 1;
        if token.same_kind(&wanted) {
            Ok(token)
        } else {
            let mut kinds: Vec<Token> = Vec::new();
            kinds.push(wanted);
            assert(view_each(kinds@) =~= seq![wanted@]);
            Err(ParseError::UnexpectedToken(token.clone(), kinds))
        }
    }

    /// Parses the statement that the token at the cursor begins.
    pub fn parse_statement(&mut self) -> (result: Result<Statement, ParseError>)
        ensures
            final(self).tokens() == old(self).tokens(),
            final(self).position() == statement(old(self).tokens(), old(self).position()).next,
            yields(result, statement(old(self).tokens(), old(self).position()).outcome),
        decreases old(self).tokens().len() - old(self).position(), 0nat,
    {
        proof {
            use_type_invariant(&*self);
        }
        if self.position >= self.tokens.len() {
            return Err(ParseError::EOF);
        }
        let token = &self.tokens[self.position];
        self.position = self.position + 1;
        match token {
            Token::Repeat => self.parse_repeat(),
            Token::Make => self.parse_variable_declaration(),
            Token::To => self.parse_procedure_declaration(),
            Token::Identifier { literal } => self.parse_procedure_call(literal.as_str()),
            _ => {
                let mut kinds: Vec<Token> = Vec::new();
                kinds.push(Token::Repeat);
                kinds.push(Token::Make);
                kinds.push(Token::To);
                kinds.push(Token::Identifier { literal: String::new() });
                assert(view_each(kinds@) =~= statement_kinds());
                Err(ParseError::UnexpectedToken(token.clone(), kinds))
            },
        }
    }

    /// Parses the arguments of a call of `name`, whose name has been taken.
    pub fn parse_procedure_call(&mut self, name: &str) -> (result: Result<Statement, ParseError>)
        ensures
            final(self).tokens() == old(self).tokens(),
            final(self).position() == call_statement(
                old(self).tokens(),
                old(self).position(),
                name@,
            ).next,
            yields(result, call_statement(old(self).tokens(), old(self).position(), name@).outcome),
    {
        let mut args: Vec<Expression> = Vec::new();
        loop
            invariant
                self.tokens() == old(self).tokens(),
                arguments(old(self).tokens(), old(self).position()) == prepend(
                    view_each(args@),
                    arguments(self.tokens(), self.position()),
                ),
            ensures
                self.tokens() == old(self).tokens(),
                arguments(old(self).tokens(), old(self).position()) == (Parsed {
                    outcome: Ok::<Seq<ExprView>, ParseErrorView>(view_each(args@)),
                    next: self.position(),
                }),
            decreases self.tokens().len() - self.position(),
        {
            proof {
                use_type_invariant(&*self);
                assert(view_each(args@) + Seq::<ExprView>::empty() =~= view_each(args@));
                lemma_expression_bounds(self.tokens(), self.position());
            }
            if self.position >= self.tokens.len() {
                break ;
            }
            match &self.tokens[self.position] {
                Token::Variable { .. } | Token::Number { .. } | Token::LParen => {},
                _ => {
                    break ;
                },
            }
            let ghost before = view_each(args@);
            let ghost first = expression(self.tokens(), self.position());
            let ghost rest = arguments(self.tokens(), first.next);
            match self.parse_expression() {
                Ok(e) => {
                    args.push(e);
                    proof {
                        assert(view_each(args@) =~= before + seq![e@]);
                        if let Ok(more) = rest.outcome {
                            assert(before + (seq![e@] + more) =~= view_each(args@) + more);
                        }
                    }
                },
                Err(e) => {
                    return Err(e);
                },
            }
        }
        Ok(Statement::ProcedureCall { name: name.to_string(), args })
    }

    /// Parses a loop, whose keyword has been taken: the count, then the body
    /// in brackets.
    pub fn parse_repeat(&mut self) -> (result: Result<Statement, ParseError>)
        ensures
            final(self).tokens() == old(self).tokens(),
            final(self).position() == repeat_statement(old(self).tokens(), old(self).position()).next,
            yields(result, repeat_statement(old(self).tokens(), old(self).position()).outcome),
        decreases old(self).tokens().len() - old(self).position(), 0nat,
    {
        proof {
            use_type_invariant(&*self);
            lemma_expression_bounds(self.tokens(), self.position());
        }
        let count = self.parse_expression()?;
        self.expect(Token::LBracket)?;
        let body = self.parse_body(Token::RBracket)?;
        let out = Statement::Repeat { count, body };
        proof {
            lemma_body_view(out);
        }
        Ok(out)
    }

    /// Parses the statements of a body up to the token of the kind of
    /// `closer` that ends it, and takes that token.
    pub fn parse_body(&mut self, closer: Token) -> (result: Result<AST, ParseError>)
        ensures
            final(self).tokens() == old(self).tokens(),
            final(self).position() == block(
                old(self).tokens(),
                old(self).position(),
                closer@,
            ).next,
            yields(result, block(old(self).tokens(), old(self).position(), closer@).outcome),
        decreases old(self).tokens().len() - old(self).position(), 1nat,
    {
        let mut statements: Vec<Statement> = Vec::new();
        loop
            invariant
                self.tokens() == old(self).tokens(),
                old(self).position() <= self.position(),
                block(old(self).tokens(), old(self).position(), closer@) == prepend(
                    view_each(statements@),
                    block(self.tokens(), self.position(), closer@),
                ),
            decreases self.tokens().len() - self.position(),
        {
            proof {
                use_type_invariant(&*self);
                assert(view_each(statements@) + Seq::<StmtView>::empty() =~= view_each(
                    statements@,
                ));
            }
            if self.position >= self.tokens.len() {
                return Err(ParseError::EOF);
            }
            if self.tokens[self.position].same_kind(&closer) {
                self.position = self.position + 1;
                return Ok(AST { statements });
            }
            proof {
                lemma_statement_bounds(self.tokens(), self.position());
            }
            let ghost before = view_each(statements@);
            let ghost first = statement(self.tokens(), self.position());
            let ghost rest = block(self.tokens(), first.next, closer@);
            match self.parse_statement() {
                Ok(s) => {
                    statements.push(s);
                    proof {
                        assert(view_each(statements@) =~= before + seq![s@]);
                        if let Ok(more) = rest.outcome {
                            assert(before + (seq![s@] + more) =~= view_each(statements@) + more);
                        }
                    }
                },
                Err(e) => {
                    return Err(e);
                },
            }
        }
    }

    /// Parses a procedure declaration, whose keyword has been taken: the
    /// name, the parameters, then the body up to its end keyword.
    pub fn parse_procedure_declaration(&mut self) -> (result: Result<Statement, ParseError>)
        ensures
            final(self).tokens() == old(self).tokens(),
            final(self).position() == declaration_statement(old(self).tokens(), old(self).position()).next,
            yields(result, declaration_statement(old(self).tokens(), old(self).position()).outcome),
        decreases old(self).tokens().len() - old(self).position(), 0nat,
    {
        proof {
            use_type_invariant(&*self);
        }
        let name = match self.expect(Token::Identifier { literal: String::new() })? {
            Token::Identifier { literal } => literal.clone(),
            _ => String::new(),
        };
        let mut params: Vec<String> = Vec::new();
        let ghost start = self.position();
        loop
            invariant
                self.tokens() == old(self).tokens(),
                start == old(self).position() + 1,
                parameters(self.tokens(), start) == view_each(params@) + parameters(
                    self.tokens(),
                    self.position(),
                ),
                self.position() == start + params.len(),
            ensures
                self.tokens() == old(self).tokens(),
                start == old(self).position() + 1,
                parameters(self.tokens(), start) == view_each(params@),
                self.position() == start + params.len(),
            decreases self.tokens().len() - self.position(),
        {
            proof {
                use_type_invariant(&*self);
                assert(view_each(params@) + Seq::<Seq<char>>::empty() =~= view_each(params@));
            }
            if self.position >= self.tokens.len() {
                break ;
            }
            match &self.tokens[self.position] {
                Token::Variable { name } => {
                    let ghost before = view_each(params@);
                    let ghost rest = parameters(self.tokens(), self.position() + 1);
                    params.push(name.clone());
                    self.position = self.position + 1;
                    proof {
                        assert(view_each(params@) =~= before + seq![name@]);
                        assert(before + (seq![name@] + rest) =~= view_each(params@) + rest);
                    }
                },
                _ => {
                    break ;
                },
            }
        }
        proof {
            use_type_invariant(&*self);
        }
        let body = self.parse_body(Token::End)?;
        let out = Statement::ProcedureDeclaration { name, body, params };
        proof {
            lemma_body_view(out);
        }
        Ok(out)
    }

    /// Parses a variable declaration, whose keyword has been taken: the
    /// quoted name, then the value.
    pub fn parse_variable_declaration(&mut self) -> (result: Result<Statement, ParseError>)
        ensures
            final(self).tokens() == old(self).tokens(),
            final(self).position() == assignment_statement(old(self).tokens(), old(self).position()).next,
            yields(result, assignment_statement(old(self).tokens(), old(self).position()).outcome),
    {
        proof {
            use_type_invariant(&*self);
        }
        let name = match self.expect(Token::Word { literal: String::new() })? {
            Token::Word { literal } => literal.clone(),
            _ => String::new(),
        };
        let val = Box::new(self.parse_expression()?);
        Ok(Statement::VariableDeclaration { name, val })
    }

    /// Converts the run of arithmetic tokens at the cursor to postfix order.
    /// `first` is an operand that was taken before the run.
    pub fn parse_arithmetic_expression(&mut self, first: Option<Expression>) -> (result: Result<
        Expression,
        ParseError,
    >)
        ensures
            final(self).tokens() == old(self).tokens(),
            ({
                let seed = match first {
                    Some(e) => seq![e@],
                    None => Seq::empty(),
                };
                let wanted = arithmetic(old(self).tokens(), old(self).position(), seed);
                final(self).position() == wanted.next && yields(result, wanted.outcome)
            }),
    {
        let ghost seed: Seq<ExprView> = if first is Some {
            seq![first->0@]
        } else {
            Seq::empty()
        };
        let mut stack: Vec<Pending> = Vec::new();
        let mut output: Vec<Expression> = Vec::new();
        if let Some(e) = first {
            output.push(e);
        }
        let ghost start = Yard { stack: Seq::empty(), output: seed };
        let ghost from = self.position();
        let ghost end = arithmetic_end(self.tokens(), from);
        proof {
            assert(yard_of(stack, output).output =~= seed);
            assert(yard_of(stack, output).stack =~= Seq::<Pending>::empty());
            lemma_arithmetic_end_bounds(self.tokens(), from);
        }
        loop
            invariant
                self.tokens() == old(self).tokens(),
                from == old(self).position(),
                end == arithmetic_end(self.tokens(), from),
                seed == if first is Some {
                    seq![first->0@]
                } else {
                    Seq::<ExprView>::empty()
                },
                start == (Yard { stack: Seq::empty(), output: seed }),
                from <= self.position() <= end,
                arithmetic_end(self.tokens(), self.position()) == end,
                start.run(self.tokens(), from, end) == yard_of(stack, output).run(
                    self.tokens(),
                    self.position(),
                    end,
                ),
            ensures
                self.tokens() == old(self).tokens(),
                self.position() == end,
                start.run(self.tokens(), from, end).outcome == Ok::<Yard, ParseErrorView>(
                    yard_of(stack, output),
                ),
                start.run(self.tokens(), from, end).next == end,
            decreases self.tokens().len() - self.position(),
        {
            proof {
                use_type_invariant(&*self);
            }
            if self.position >= self.tokens.len() {
                break ;
            }
            let token = &self.tokens[self.position];
            match token {
                Token::Number { .. } | Token::Variable { .. } | Token::Operator(_)
                | Token::LParen | Token::RParen => {},
                _ => {
                    break ;
                },
            }
            let ghost yard = yard_of(stack, output);
            let ghost before = view_each(output@);
            proof {
                lemma_arithmetic_end_bounds(self.tokens(), self.position());
                assert(self.tokens()[self.position()] == token@);
                assert(in_arithmetic(token@));
            }
            self.position = self.position + 1;
            match token {
                Token::Number { literal } => {
                    let number = Parser::parse_number(literal.as_str())?;
                    output.push(number);
                    assert(view_each(output@) =~= before.push(number@));
                },
                Token::Variable { name } => {
                    let variable = Expression::Variable { name: name.clone() };
                    output.push(variable);
                    assert(view_each(output@) =~= before.push(variable@));
                },
                Token::Operator(op) => {
                    Parser::yield_to(&mut stack, &mut output, op.precedence());
                    stack.push(Pending::Op(*op));
                },
                Token::LParen => {
                    stack.push(Pending::Open);
                },
                Token::RParen => {
                    if !Parser::close(&mut stack, &mut output) {
                        return Err(ParseError::UnbalancedParens);
                    }
                },
                _ => {},
            }
        }
        if Parser::finish(&mut stack, &mut output) {
            let out = Expression::ArithmeticExpression { postfix: output };
            proof {
                lemma_arithmetic_view(out);
            }
            Ok(out)
        } else {
            Err(ParseError::UnbalancedParens)
        }
    }

    /// Moves operators from the top of the stack to the output as long as
    /// they bind at least as tightly as `binding`.
    fn yield_to(stack: &mut Vec<Pending>, output: &mut Vec<Expression>, binding: usize)
        ensures
            yard_of(*final(stack), *final(output)) == yard_of(*old(stack), *old(output)).yield_to(
                binding as nat,
            ),
    {
        loop
            invariant
                yard_of(*old(stack), *old(output)).yield_to(binding as nat) == yard_of(
                    *stack,
                    *output,
                ).yield_to(binding as nat),
            ensures
                yard_of(*old(stack), *old(output)).yield_to(binding as nat) == yard_of(
                    *stack,
                    *output,
                ),
            decreases stack.len(),
        {
            if stack.len() == 0 {
                break ;
            }
            match stack[stack.len() - 1] {
                Pending::Op(op) => {
                    if op.precedence() >= binding {
                        let ghost yard = yard_of(*stack, *output);
                        stack.pop();
                        output.push(Expression::Operator { op });
                        proof {
                            assert(yard_of(*stack, *output).output =~= yard.moved(op).output);
                            assert(yard_of(*stack, *output).stack =~= yard.moved(op).stack);
                        }
                    } else {
                        break ;
                    }
                },
                Pending::Open => {
                    break ;
                },
            }
        }
    }

    /// Moves operators to the output down to the nearest mark and drops it.
    /// `false` where the stack holds no mark.
    fn close(stack: &mut Vec<Pending>, output: &mut Vec<Expression>) -> (closed: bool)
        ensures
            closed == yard_of(*old(stack), *old(output)).close().is_some(),
            closed ==> yard_of(*old(stack), *old(output)).close() == Some(
                yard_of(*final(stack), *final(output)),
            ),
    {
        loop
            invariant
                yard_of(*old(stack), *old(output)).close() == yard_of(*stack, *output).close(),
            decreases stack.len(),
        {
            match stack.pop() {
                None => {
                    return false;
                },
                Some(Pending::Open) => {
                    return true;
                },
                Some(Pending::Op(op)) => {
                    let ghost yard = yard_of(*stack, *output);
                    output.push(Expression::Operator { op });
                    proof {
                        let was = Yard { stack: yard.stack.push(Pending::Op(op)), ..yard };
                        assert(was.stack.drop_last() =~= yard.stack);
                        assert(yard_of(*stack, *output).output =~= was.moved(op).output);
                    }
                },
            }
        }
    }

    /// Moves all operators to the output. `false` where the stack holds a
    /// mark.
    fn finish(stack: &mut Vec<Pending>, output: &mut Vec<Expression>) -> (done: bool)
        ensures
            done == yard_of(*old(stack), *old(output)).finish().is_some(),
            done ==> yard_of(*old(stack), *old(output)).finish() == Some(
                view_each(final(output)@),
            ),
    {
        loop
            invariant
                yard_of(*old(stack), *old(output)).finish() == yard_of(*stack, *output).finish(),
            decreases stack.len(),
        {
            match stack.pop() {
                None => {
                    return true;
                },
                Some(Pending::Open) => {
                    return false;
                },
                Some(Pending::Op(op)) => {
                    let ghost yard = yard_of(*stack, *output);
                    output.push(Expression::Operator { op });
                    proof {
                        let was = Yard { stack: yard.stack.push(Pending::Op(op)), ..yard };
                        assert(was.stack.drop_last() =~= yard.stack);
                        assert(yard_of(*stack, *output).output =~= was.moved(op).output);
                    }
                },
            }
        }
    }

    /// Reads a number literal.
    pub fn parse_number(literal: &str) -> (result: Result<Expression, ParseError>)
        ensures
            (match integer_of(literal@) {
                Some(val) => result matches Ok(e) && e@ == (ExprView::Number { val }),
                None => result matches Err(err) && err@ == ParseErrorView::ParseInteger(
                    literal@,
                ),
            }),
    {
        match parse_integer(literal) {
            Some(n) => Ok(Expression::Number { val: n }),
            None => Err(ParseError::ParseInteger(literal.to_string())),
        }
    }

    /// Parses the expression that starts at the cursor.
    pub fn parse_expression(&mut self) -> (result: Result<Expression, ParseError>)
        ensures
            final(self).tokens() == old(self).tokens(),
            final(self).position() == expression(old(self).tokens(), old(self).position()).next,
            yields(result, expression(old(self).tokens(), old(self).position()).outcome),
    {
        proof {
            use_type_invariant(&*self);
        }
        if self.position >= self.tokens.len() {
            return Err(ParseError::EOF);
        }
        let token = &self.tokens[self.position];
        let first = match token {
            Token::LParen => {
                return self.parse_arithmetic_expression(None);
            },
            Token::Number { literal } => {
                self.position = self.position + 1;
                Parser::parse_number(literal.as_str())?
            },
            Token::Variable { name } => {
                self.position = self.position + 1;
                Expression::Variable { name: name.clone() }
            },
            _ => {
                self.position = self.position + 1;
                let mut kinds: Vec<Token> = Vec::new();
                kinds.push(Token::Number { literal: String::new() });
                kinds.push(Token::Variable { name: String::new() });
                assert(view_each(kinds@) =~= operand_kinds());
                return Err(ParseError::UnexpectedToken(token.clone(), kinds));
            },
        };
        if self.position < self.tokens.len() {
            if let Token::Operator(_) = &self.tokens[self.position] {
                return self.parse_arithmetic_expression(Some(first));
            }
        }
        Ok(first)
    }
}

} // verus!
