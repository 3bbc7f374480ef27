//! Evaluation: from statements to instructions.

use crate::command::{command_named, Command};
use crate::error::{RuntimeError, RuntimeErrorView};
use crate::lexer::Operator;
use crate::parser::{clone_names, ExprView, Expression, Statement, StmtView, AST};
use crate::table::Table;
use crate::text::view_each;
use vstd::prelude::*;
use vstd::string::StringExecFns;

verus! {

/// How deep procedure calls may nest. A call beyond it fails.
pub const MAX_CALL_DEPTH: usize = 256;

/// A command with its evaluated arguments, ready for the renderer.
#[derive(Debug, PartialEq)]
pub struct Instruction {
    pub command: Command,
    pub args: Vec<isize>,
}

/// What an [`Instruction`] holds.
pub struct InstructionView {
    pub command: Command,
    pub args: Seq<int>,
}

/// The numbers of `values` as mathematical integers.
pub open spec fn integers(values: Seq<isize>) -> Seq<int> {
    values.map_values(|v: isize| v as int)
}

impl View for Instruction {
    type V = InstructionView;

    open spec fn view(&self) -> InstructionView {
        InstructionView { command: self.command, args: integers(self.args@) }
    }
}

/// A declared procedure: its parameters and its body.
pub struct ProcedureView {
    pub params: Seq<Seq<char>>,
    pub body: Seq<StmtView>,
}

/// The state of the interpreter: the global variables, the stack of local
/// scopes with the innermost last, and the declared procedures.
pub struct Memory {
    pub globals: Map<Seq<char>, int>,
    pub locals: Seq<Map<Seq<char>, int>>,
    pub procedures: Map<Seq<char>, ProcedureView>,
}

/// What `name` is bound to in the innermost of `scopes` that binds it.
pub open spec fn innermost(scopes: Seq<Map<Seq<char>, int>>, name: Seq<char>) -> Option<int>
    decreases scopes.len(),
{
    if scopes.len() == 0 {
        None
    } else if scopes.last().contains_key(name) {
        Some(scopes.last()[name])
    } else {
        innermost(scopes.drop_last(), name)
    }
}

impl Memory {
    /// The state of a fresh interpreter.
    pub open spec fn empty() -> Memory {
        Memory { globals: Map::empty(), locals: Seq::empty(), procedures: Map::empty() }
    }

    /// The value of the variable `name`: that of the innermost local scope
    /// that binds it, else the global one.
    pub open spec fn lookup(self, name: Seq<char>) -> Option<int> {
        match innermost(self.locals, name) {
            Some(value) => Some(value),
            None => self.globals.get(name),
        }
    }

    /// Binds `name` in the innermost local scope, or in the global scope
    /// where no procedure is active.
    pub open spec fn assign(self, name: Seq<char>, value: int) -> Memory {
        if self.locals.len() > 0 {
            Memory {
                locals: self.locals.update(
                    self.locals.len() - 1,
                    self.locals.last().insert(name, value),
                ),
                ..self
            }
        } else {
            Memory { globals: self.globals.insert(name, value), ..self }
        }
    }

    /// Enters a procedure: `frame` becomes the innermost scope.
    pub open spec fn enter(self, frame: Map<Seq<char>, int>) -> Memory {
        Memory { locals: self.locals.push(frame), ..self }
    }

    /// Leaves a procedure: the innermost scope is dropped.
    pub open spec fn leave(self) -> Memory {
        Memory { locals: self.locals.drop_last(), ..self }
    }

    /// Records the procedure `name`.
    pub open spec fn declare(self, name: Seq<char>, procedure: ProcedureView) -> Memory {
        Memory { procedures: self.procedures.insert(name, procedure), ..self }
    }

    /// How many more procedure calls may nest.
    pub open spec fn depth_left(self) -> nat {
        if self.locals.len() <= MAX_CALL_DEPTH {
            (MAX_CALL_DEPTH - self.locals.len()) as nat
        } else {
            0
        }
    }
}

/// The scope of a call: each parameter bound to its argument. Of two
/// parameters of one name the later counts.
pub open spec fn frame_of(params: Seq<Seq<char>>, values: Seq<int>) -> Map<Seq<char>, int>
    decreases params.len(),
{
    if params.len() == 0 || values.len() != params.len() {
        Map::empty()
    } else {
        frame_of(params.drop_last(), values.drop_last()).insert(params.last(), values.last())
    }
}

/// `value` where the machine's integers hold it.
pub open spec fn in_range(value: int) -> Result<int, RuntimeErrorView> {
    if isize::MIN <= value <= isize::MAX {
        Ok(value)
    } else {
        Err(RuntimeErrorView::Overflow)
    }
}

/// The quotient of `a` by `b`, rounded towards zero.
pub open spec fn quotient(a: int, b: int) -> int
    recommends
        b != 0,
{
    if a >= 0 && b > 0 {
        a / b
    } else if a >= 0 {
        -(a / (-b))
    } else if b > 0 {
        -((-a) / b)
    } else {
        (-a) / (-b)
    }
}

/// The result of `op` on `a`, the left operand, and `b`, the right one.
pub open spec fn apply(op: Operator, a: int, b: int) -> Result<int, RuntimeErrorView> {
    match op {
        Operator::Addition => in_range(a + b),
        Operator::Subtraction => in_range(a - b),
        Operator::Multiplication => in_range(a * b),
        Operator::Division => if b == 0 {
            Err(RuntimeErrorView::DivisionByZero)
        } else {
            in_range(quotient(a, b))
        },
    }
}

/// The name of `op` in messages.
pub open spec fn operator_name(op: Operator) -> Seq<char> {
    match op {
        Operator::Addition => "Addition"@,
        Operator::Subtraction => "Subtraction"@,
        Operator::Multiplication => "Multiplication"@,
        Operator::Division => "Division"@,
    }
}

/// The failure of an operator that stands where a value is needed.
pub open spec fn stray_operator(op: Operator) -> RuntimeErrorView {
    RuntimeErrorView::Other("Encountered unexpected operator "@ + operator_name(op))
}

/// The failure of a postfix sequence that holds a nested expression.
pub open spec fn nested_postfix() -> RuntimeErrorView {
    RuntimeErrorView::Other(
        "reverse polish notation should only contain numbers, variables and operators"@,
    )
}

/// The failure of an operator of a postfix sequence that finds fewer than two
/// operands.
pub open spec fn missing_operand() -> RuntimeErrorView {
    RuntimeErrorView::Other("reverse polish notation lacks an operand"@)
}

/// The failure of a postfix sequence that leaves no value.
pub open spec fn missing_value() -> RuntimeErrorView {
    RuntimeErrorView::Other("reverse polish notation yields no value"@)
}

/// The value of a number or a variable.
pub open spec fn operand(memory: Memory, e: ExprView) -> Result<int, RuntimeErrorView> {
    match e {
        ExprView::Number { val } => Ok(val),
        ExprView::Variable { name } => match memory.lookup(name) {
            Some(value) => Ok(value),
            None => Err(RuntimeErrorView::VariableNotFound { name }),
        },
        ExprView::Operator { op } => Err(stray_operator(op)),
        ExprView::ArithmeticExpression { .. } => Err(nested_postfix()),
    }
}

/// The operand stack, its top last, after one item of a postfix sequence: an
/// operand is pushed; an operator takes the two topmost values, the right
/// operand from the top, and pushes its result.
pub open spec fn postfix_step(memory: Memory, stack: Seq<int>, item: ExprView) -> Result<
    Seq<int>,
    RuntimeErrorView,
> {
    match item {
        ExprView::Operator { op } => if stack.len() < 2 {
            Err(missing_operand())
        } else {
            match apply(op, stack[stack.len() - 2], stack[stack.len() - 1]) {
                Ok(value) => Ok(stack.take(stack.len() - 2).push(value)),
                Err(e) => Err(e),
            }
        },
        _ => match operand(memory, item) {
            Ok(value) => Ok(stack.push(value)),
            Err(e) => Err(e),
        },
    }
}

/// The operand stack after the items of a postfix sequence, from left to
/// right, or the first failure.
pub open spec fn postfix_run(memory: Memory, stack: Seq<int>, items: Seq<ExprView>) -> Result<
    Seq<int>,
    RuntimeErrorView,
>
    decreases items.len(),
{
    if items.len() == 0 {
        Ok(stack)
    } else {
        match postfix_run(memory, stack, items.drop_last()) {
            Ok(before) => postfix_step(memory, before, items.last()),
            Err(e) => Err(e),
        }
    }
}

/// The value of a postfix sequence: what lies at the bottom of the operand
/// stack after its items.
pub open spec fn postfix_value(memory: Memory, items: Seq<ExprView>) -> Result<
    int,
    RuntimeErrorView,
> {
    match postfix_run(memory, Seq::empty(), items) {
        Ok(stack) => if stack.len() > 0 {
            Ok(stack[0])
        } else {
            Err(missing_value())
        },
        Err(e) => Err(e),
    }
}

/// The value of an expression. It depends on the memory and leaves it as it
/// is.
pub open spec fn value(memory: Memory, e: ExprView) -> Result<int, RuntimeErrorView> {
    match e {
        ExprView::ArithmeticExpression { postfix } => postfix_value(memory, postfix),
        _ => operand(memory, e),
    }
}

/// The values of `items` from left to right, or the first failure.
pub open spec fn values(memory: Memory, items: Seq<ExprView>) -> Result<
    Seq<int>,
    RuntimeErrorView,
>
    decreases items.len(),
{
    if items.len() == 0 {
        Ok(Seq::empty())
    } else {
        match values(memory, items.drop_last()) {
            Ok(front) => match value(memory, items.last()) {
                Ok(v) => Ok(front.push(v)),
                Err(e) => Err(e),
            },
            Err(e) => Err(e),
        }
    }
}

/// What running a piece of a program comes to: the memory afterwards, the
/// instructions emitted, and the failure that stopped it, if any. What was
/// done before a failure stays done.
pub struct Outcome {
    pub memory: Memory,
    pub emitted: Seq<InstructionView>,
    pub error: Option<RuntimeErrorView>,
}

impl Outcome {
    /// Nothing emitted, no failure.
    pub open spec fn done(memory: Memory) -> Outcome {
        Outcome { memory, emitted: Seq::empty(), error: None }
    }

    /// Nothing emitted, and a failure.
    pub open spec fn failed(memory: Memory, error: RuntimeErrorView) -> Outcome {
        Outcome { memory, emitted: Seq::empty(), error: Some(error) }
    }

    /// The outcome with `front` emitted before it.
    pub open spec fn after(self, front: Seq<InstructionView>) -> Outcome {
        Outcome { emitted: front + self.emitted, ..self }
    }

    /// The outcome of a procedure body, seen from the caller: the scope of the
    /// call is gone.
    pub open spec fn returned(self) -> Outcome {
        Outcome { memory: self.memory.leave(), ..self }
    }
}

/// The call of the command or procedure `name` with `args`. The name is
/// looked up among the commands first, then among the procedures. The number
/// of arguments is checked before any of them is evaluated; they are
/// evaluated in the caller's scopes.
pub open spec fn run_call(memory: Memory, name: Seq<char>, args: Seq<ExprView>, depth: nat)
    -> Outcome
    decreases depth, 0nat, args, 0nat, 0nat,
{
    match command_named(name) {
        Some(command) => if args.len() != command.arguments() {
            Outcome::failed(
                memory,
                RuntimeErrorView::ArgCountMismatch { expected: command.arguments() },
            )
        } else {
            match values(memory, args) {
                Ok(numbers) => Outcome {
                    memory,
                    emitted: seq![InstructionView { command, args: numbers }],
                    error: None,
                },
                Err(e) => Outcome::failed(memory, e),
            }
        },
        None => if !memory.procedures.contains_key(name) {
            Outcome::failed(memory, RuntimeErrorView::ProcedureNotFound { name })
        } else {
            let procedure = memory.procedures[name];
            if args.len() != procedure.params.len() {
                Outcome::failed(
                    memory,
                    RuntimeErrorView::ArgCountMismatch { expected: procedure.params.len() },
                )
            } else {
                match values(memory, args) {
                    Ok(numbers) => if depth == 0 {
                        Outcome::failed(memory, RuntimeErrorView::CallDepthExceeded)
                    } else {
                        run_block(
                            memory.enter(frame_of(procedure.params, numbers)),
                            procedure.body,
                            0,
                            (depth - 1) as nat,
                        ).returned()
                    },
                    Err(e) => Outcome::failed(memory, e),
                }
            }
        },
    }
}

/// One statement, with `depth` more procedure calls allowed to nest.
pub open spec fn run_statement(memory: Memory, s: StmtView, depth: nat) -> Outcome
    decreases depth, 1nat, s, 0nat, 0nat,
{
    match s {
        StmtView::ProcedureDeclaration { name, body, params } => {
            if memory.procedures.contains_key(name) {
                Outcome::failed(memory, RuntimeErrorView::RedeclaredProcedure { name })
            } else {
                Outcome::done(memory.declare(name, ProcedureView { params, body }))
            }
        },
        StmtView::ProcedureCall { name, args } => run_call(memory, name, args, depth),
        StmtView::VariableDeclaration { name, val } => match value(memory, val) {
            Ok(v) => Outcome::done(memory.assign(name, v)),
            Err(e) => Outcome::failed(memory, e),
        },
        StmtView::Repeat { count, body } => match value(memory, count) {
            Ok(times) => run_repeat(
                memory,
                body,
                if times > 0 {
                    times as nat
                } else {
                    0
                },
                depth,
            ),
            Err(e) => Outcome::failed(memory, e),
        },
    }
}

/// The statements of `block` from `from` on, in order, up to the first
/// failure.
pub open spec fn run_block(memory: Memory, block: Seq<StmtView>, from: int, depth: nat) -> Outcome
    decreases depth, 1nat, block, 0nat, block.len() - from,
{
    if !(0 <= from < block.len()) {
        Outcome::done(memory)
    } else {
        let first = run_statement(memory, block[from], depth);
        if first.error is Some {
            first
        } else {
            run_block(first.memory, block, from + 1, depth).after(first.emitted)
        }
    }
}

/// The statements of `body`, `times` times over, up to the first failure.
pub open spec fn run_repeat(memory: Memory, body: Seq<StmtView>, times: nat, depth: nat)
    -> Outcome
    decreases depth, 1nat, body, times, 0nat,
{
    if times == 0 {
        Outcome::done(memory)
    } else {
        let first = run_block(memory, body, 0, depth);
        if first.error is Some {
            first
        } else {
            run_repeat(first.memory, body, (times - 1) as nat, depth).after(first.emitted)
        }
    }
}

/// A program fragment, run by an interpreter in the state `memory`.
pub open spec fn run_program(memory: Memory, program: Seq<StmtView>) -> Outcome {
    run_block(memory, program, 0, memory.depth_left())
}

/// Emitting `b` and then `a` before an outcome is emitting `a + b` before it.
pub proof fn lemma_after_twice(o: Outcome, a: Seq<InstructionView>, b: Seq<InstructionView>)
    ensures
        o.after(b).after(a) == o.after(a + b),
        o.after(Seq::empty()) == o,
{
    assert(a + (b + o.emitted) =~= (a + b) + o.emitted);
    assert(Seq::<InstructionView>::empty() + o.emitted =~= o.emitted);
}

/// Whether `result` is what `wanted` describes.
pub open spec fn gives(result: Result<isize, RuntimeError>, wanted: Result<int, RuntimeErrorView>)
    -> bool {
    match (result, wanted) {
        (Ok(n), Ok(v)) => n == v,
        (Err(e), Err(w)) => e@ == w,
        _ => false,
    }
}

/// Whether `result` reports the failure of `outcome`, or none where it has
/// none.
pub open spec fn reports(result: Result<(), RuntimeError>, outcome: Outcome) -> bool {
    match (result, outcome.error) {
        (Ok(_), None) => true,
        (Err(e), Some(w)) => e@ == w,
        _ => false,
    }
}

/// The variables of a scope, with their values as mathematical integers.
pub open spec fn scope_view(table: Table<isize>) -> Map<Seq<char>, int> {
    table@.map_values(|v: isize| v as int)
}

/// The result of `op` on `a` and `b`, where the machine's integers hold it.
pub fn apply_operator(op: Operator, a: isize, b: isize) -> (result: Result<isize, RuntimeError>)
    ensures
        gives(result, apply(op, a as int, b as int)),
{
    let computed = match op {
        Operator::Addition => a.checked_add(b),
        Operator::Subtraction => a.checked_sub(b),
        Operator::Multiplication => a.checked_mul(b),
        Operator::Division => {
            if b == 0 {
                return Err(RuntimeError::DivisionByZero);
            }
            a.checked_div(b)
        },
    };
    match computed {
        Some(value) => Ok(value),
        None => Err(RuntimeError::Overflow),
    }
}

/// The scope of a call: each parameter bound to its argument. Empty where
/// there are not as many arguments as parameters.
pub fn bind(params: &Vec<String>, numbers: &Vec<isize>) -> (frame: Table<isize>)
    ensures
        scope_view(frame) == frame_of(view_each(params@), integers(numbers@)),
{
    let mut frame: Table<isize> = Table::new();
    let ghost names = view_each(params@);
    let ghost values = integers(numbers@);
    assert(scope_view(frame) =~= frame_of(names.take(0), values.take(0)));
    if params.len() != numbers.len() {
        assert(scope_view(frame) =~= frame_of(names, values));
        return frame;
    }
    let mut i: usize = 0;
    while i < params.len()
        invariant
            i <= params.len(),
            params.len() == numbers.len(),
            names == view_each(params@),
            values == integers(numbers@),
            scope_view(frame) == frame_of(names.take(i as int), values.take(i as int)),
        decreases params.len() - i,
    {
        let ghost before = frame@;
        frame.insert(params[i].clone(), numbers[i]);
        proof {
            assert(names.take(i + 1).drop_last() =~= names.take(i as int));
            assert(values.take(i + 1).drop_last() =~= values.take(i as int));
            assert(names.take(i + 1).last() == params[i as int]@);
            assert(values.take(i + 1).last() == numbers[i as int] as int);
            assert(frame@.map_values(|v: isize| v as int) =~= before.map_values(
                |v: isize| v as int,
            ).insert(params[i as int]@, numbers[i as int] as int));
        }
        i += 1;
    }
    assert(names.take(i as int) =~= names);
    assert(values.take(i as int) =~= values);
    frame
}

/// A declared procedure.
pub struct Procedure {
    ast: AST,
    params: Vec<String>,
}

impl View for Procedure {
    type V = ProcedureView;

    closed spec fn view(&self) -> ProcedureView {
        ProcedureView { params: view_each(self.params@), body: self.ast@ }
    }
}

/// The interpreter's state, which lasts from one program fragment to the
/// next.
pub struct Evaluator {
    globals: Table<isize>,
    locals: Vec<Table<isize>>,
    procedures: Table<Procedure>,
}

impl View for Evaluator {
    type V = Memory;

    closed spec fn view(&self) -> Memory {
        Memory {
            globals: scope_view(self.globals),
            locals: Seq::new(self.locals@.len(), |i: int| scope_view(self.locals@[i])),
            procedures: self.procedures@.map_values(|p: Procedure| p@),
        }
    }
}

impl Evaluator {
    /// A fresh interpreter: no variables, no procedures.
    pub fn new() -> (evaluator: Self)
        ensures
            evaluator@ == Memory::empty(),
    {
        let evaluator = Evaluator {
            globals: Table::new(),
            locals: Vec::new(),
            procedures: Table::new(),
        };
        proof {
            assert(evaluator@.globals =~= Map::empty());
            assert(evaluator@.locals =~= Seq::empty());
            assert(evaluator@.procedures =~= Map::empty());
        }
        evaluator
    }

    /// Runs a program fragment. The state keeps what was done before a
    /// failure; the instructions emitted before it are dropped.
    pub fn evaluate_ast(&mut self, ast: &AST) -> (result: Result<Vec<Instruction>, RuntimeError>)
        ensures
            final(self)@ == run_program(old(self)@, ast@).memory,
            (match result {
                Ok(instructions) => run_program(old(self)@, ast@).error is None && view_each(
                    instructions@,
                ) == run_program(old(self)@, ast@).emitted,
                Err(e) => run_program(old(self)@, ast@).error == Some(e@),
            }),
    {
        let mut instructions: Vec<Instruction> = Vec::new();
        proof {
            assert(view_each(instructions@) =~= Seq::<InstructionView>::empty());
            let o = run_program(self@, ast@);
            assert(Seq::<InstructionView>::empty() + o.emitted =~= o.emitted);
        }
        match self.evaluate_block(&ast.statements, &mut instructions) {
            Ok(()) => Ok(instructions),
            Err(e) => Err(e),
        }
    }

    /// Runs `statements` in order and appends what they emit to
    /// `instructions`. What was emitted before a failure stays there.
    pub fn evaluate_block(
        &mut self,
        statements: &Vec<Statement>,
        instructions: &mut Vec<Instruction>,
    ) -> (result: Result<(), RuntimeError>)
        ensures
            final(self)@ == run_program(old(self)@, view_each(statements@)).memory,
            view_each(final(instructions)@) == view_each(old(instructions)@) + run_program(
                old(self)@,
                view_each(statements@),
            ).emitted,
            reports(result, run_program(old(self)@, view_each(statements@))),
            final(self)@.locals.len() == old(self)@.locals.len(),
        decreases old(self)@.depth_left(), 1nat, statements, 0nat, statements.len(),
    {
        let ghost start = self@;
        let ghost depth = start.depth_left();
        let ghost block = view_each(statements@);
        let ghost first = view_each(instructions@);
        let ghost mut emitted = Seq::<InstructionView>::empty();
        proof {
            lemma_after_twice(run_block(start, block, 0, depth), emitted, emitted);
            assert(first + emitted =~= first);
        }
        let mut i: usize = 0;
        while i < statements.len()
            invariant
                i <= statements.len(),
                block == view_each(statements@),
                depth == start.depth_left(),
                start == old(self)@,
                self@.locals.len() == start.locals.len(),
                view_each(instructions@) == first + emitted,
                first == view_each(old(instructions)@),
                run_block(start, block, 0, depth) == run_block(self@, block, i as int, depth).after(
                    emitted,
                ),
            decreases statements.len() - i,
        {
            let ghost before = self@;
            let ghost step = run_statement(before, block[i as int], depth);
            let ghost rest = run_block(step.memory, block, i + 1, depth);
            proof {
                vstd::std_specs::vec::axiom_vec_index_decreases(*statements, i as int);
                assert(block[i as int] == statements[i as int]@);
                lemma_after_twice(rest, emitted, step.emitted);
                assert((first + emitted) + step.emitted =~= first + (emitted + step.emitted));
            }
            match self.evaluate_statement(&statements[i], instructions) {
                Ok(()) => {
                    proof {
                        emitted = emitted + step.emitted;
                    }
                },
                Err(e) => {
                    return Err(e);
                },
            }
            i += 1;
        }
        proof {
            lemma_after_twice(Outcome::done(self@), emitted, Seq::empty());
            assert(emitted + Seq::<InstructionView>::empty() =~= emitted);
        }
        Ok(())
    }

    /// Runs one statement and appends what it emits to `instructions`. What
    /// was emitted before a failure stays there.
    pub fn evaluate_statement(
        &mut self,
        stmt: &Statement,
        instructions: &mut Vec<Instruction>,
    ) -> (result: Result<(), RuntimeError>)
        ensures
            final(self)@ == run_statement(old(self)@, stmt@, old(self)@.depth_left()).memory,
            view_each(final(instructions)@) == view_each(old(instructions)@) + run_statement(
                old(self)@,
                stmt@,
                old(self)@.depth_left(),
            ).emitted,
            reports(result, run_statement(old(self)@, stmt@, old(self)@.depth_left())),
            final(self)@.locals.len() == old(self)@.locals.len(),
        decreases old(self)@.depth_left(), 1nat, stmt, 0nat, 0nat,
    {
        let ghost start = self@;
        let ghost depth = start.depth_left();
        let ghost first = view_each(instructions@);
        proof {
            crate::parser::lemma_body_view(*stmt);
            assert(first + Seq::<InstructionView>::empty() =~= first);
        }
        match stmt {
            Statement::ProcedureDeclaration { name, body, params } => {
                if self.procedures.contains(name) {
                    return Err(RuntimeError::RedeclaredProcedure { name: name.clone() });
                }
                let procedure = Procedure { ast: body.clone(), params: clone_names(params) };
                let ghost before = self.procedures@;
                self.procedures.insert(name.clone(), procedure);
                proof {
                    assert(self.procedures@.map_values(|p: Procedure| p@) =~= before.map_values(
                        |p: Procedure| p@,
                    ).insert(name@, procedure@));
                    assert(self@.locals =~= start.locals);
                }
                Ok(())
            },
            Statement::ProcedureCall { name, args } => self.evaluate_call(name, args, instructions),
            Statement::VariableDeclaration { name, val } => {
                let number = match self.evaluate_expression(val) {
                    Ok(n) => n,
                    Err(e) => {
                        return Err(e);
                    },
                };
                self.assign(name.clone(), number);
                Ok(())
            },
            Statement::Repeat { count, body } => {
                let number = match self.evaluate_expression(count) {
                    Ok(n) => n,
                    Err(e) => {
                        return Err(e);
                    },
                };
                let times: isize = if number > 0 {
                    number
                } else {
                    0
                };
                let ghost block = body@;
                let ghost mut emitted = Seq::<InstructionView>::empty();
                proof {
                    lemma_after_twice(
                        run_repeat(start, block, times as nat, depth),
                        emitted,
                        emitted,
                    );
                }
                let mut k: isize = 0;
                while k < times
                    invariant
                        0 <= k <= times,
                        stmt is Repeat,
                        stmt->Repeat_body == *body,
                        block == body@,
                        depth == start.depth_left(),
                        start == old(self)@,
                        self@.locals.len() == start.locals.len(),
                        view_each(instructions@) == first + emitted,
                        first == view_each(old(instructions)@),
                        run_statement(start, stmt@, depth) == run_repeat(
                            start,
                            block,
                            times as nat,
                            depth,
                        ),
                        run_repeat(start, block, times as nat, depth) == run_repeat(
                            self@,
                            block,
                            (times - k) as nat,
                            depth,
                        ).after(emitted),
                    decreases times - k,
                {
                    let ghost before = self@;
                    let ghost step = run_block(before, block, 0, depth);
                    let ghost rest = run_repeat(step.memory, block, (times - k - 1) as nat, depth);
                    proof {
                        lemma_after_twice(rest, emitted, step.emitted);
                        assert((first + emitted) + step.emitted =~= first + (emitted
                            + step.emitted));
                    }
                    match self.evaluate_block(&body.statements, instructions) {
                        Ok(()) => {
                            proof {
                                emitted = emitted + step.emitted;
                            }
                        },
                        Err(e) => {
                            return Err(e);
                        },
                    }
                    k += 1;
                }
                proof {
                    lemma_after_twice(Outcome::done(self@), emitted, Seq::empty());
                    assert(emitted + Seq::<InstructionView>::empty() =~= emitted);
                }
                Ok(())
            },
        }
    }

    /// Calls the command or the procedure `name` with `args`.
    pub fn evaluate_call(
        &mut self,
        name: &String,
        args: &Vec<Expression>,
        instructions: &mut Vec<Instruction>,
    ) -> (result: Result<(), RuntimeError>)
        ensures
            final(self)@ == run_call(
                old(self)@,
                name@,
                view_each(args@),
                old(self)@.depth_left(),
            ).memory,
            view_each(final(instructions)@) == view_each(old(instructions)@) + run_call(
                old(self)@,
                name@,
                view_each(args@),
                old(self)@.depth_left(),
            ).emitted,
            reports(
                result,
                run_call(old(self)@, name@, view_each(args@), old(self)@.depth_left()),
            ),
            final(self)@.locals.len() == old(self)@.locals.len(),
        decreases old(self)@.depth_left(), 0nat, args, 0nat, 0nat,
    {
        let ghost start = self@;
        let ghost first = view_each(instructions@);
        proof {
            assert(first + Seq::<InstructionView>::empty() =~= first);
        }
        if let Some(command) = Command::from_string(name.as_str()) {
            if command.arity() != args.len() {
                return Err(RuntimeError::ArgCountMismatch { expected: command.arity() });
            }
            let numbers = match self.evaluate_arguments(args) {
                Ok(numbers) => numbers,
                Err(e) => {
                    return Err(e);
                },
            };
            let instruction = Instruction { command, args: numbers };
            instructions.push(instruction);
            assert(view_each(instructions@) =~= first + seq![instruction@]);
            return Ok(());
        }
        let procedure = match self.procedures.get(name) {
            Some(procedure) => procedure,
            None => {
                return Err(RuntimeError::ProcedureNotFound { name: name.clone() });
            },
        };
        if args.len() != procedure.params.len() {
            return Err(RuntimeError::ArgCountMismatch { expected: procedure.params.len() });
        }
        let numbers = match self.evaluate_arguments(args) {
            Ok(numbers) => numbers,
            Err(e) => {
                return Err(e);
            },
        };
        if self.locals.len() >= MAX_CALL_DEPTH {
            return Err(RuntimeError::CallDepthExceeded);
        }
        let frame = bind(&procedure.params, &numbers);
        let body = procedure.ast.clone();
        self.locals.push(frame);
        proof {
            assert(self@.locals =~= start.locals.push(scope_view(frame)));
            assert(self@ == start.enter(scope_view(frame)));
        }
        let ghost inside = self@;
        let result = self.evaluate_block(&body.statements, instructions);
        let ghost after = self@;
        self.locals.pop();
        proof {
            assert(self@.locals =~= after.locals.drop_last());
            assert(self@ == after.leave());
        }
        result
    }

    /// Binds `name` to `value` in the innermost scope: that of the active
    /// procedure, or the global one.
    pub fn assign(&mut self, name: String, value: isize)
        ensures
            final(self)@ == old(self)@.assign(name@, value as int),
            final(self)@.locals.len() == old(self)@.locals.len(),
    {
        let ghost start = self@;
        match self.locals.pop() {
            Some(scope) => {
                let mut scope = scope;
                let ghost before = scope@;
                let ghost below = self@.locals;
                scope.insert(name, value);
                self.locals.push(scope);
                proof {
                    assert(scope@.map_values(|v: isize| v as int) =~= before.map_values(
                        |v: isize| v as int,
                    ).insert(name@, value as int));
                    assert(self@.locals =~= start.locals.update(
                        start.locals.len() - 1,
                        start.locals.last().insert(name@, value as int),
                    ));
                }
            },
            None => {
                let ghost before = self.globals@;
                self.globals.insert(name, value);
                proof {
                    assert(self.globals@.map_values(|v: isize| v as int) =~= before.map_values(
                        |v: isize| v as int,
                    ).insert(name@, value as int));
                    assert(self@.locals =~= start.locals);
                }
            },
        }
    }

    /// The value of the variable `name`.
    pub fn lookup(&self, name: &String) -> (found: Option<isize>)
        ensures
            (match found {
                Some(value) => self@.lookup(name@) == Some(value as int),
                None => self@.lookup(name@) is None,
            }),
    {
        let mut i = self.locals.len();
        assert(self@.locals.take(i as int) =~= self@.locals);
        while i > 0
            invariant
                i <= self.locals.len(),
                innermost(self@.locals, name@) == innermost(self@.locals.take(i as int), name@),
            decreases i,
        {
            i -= 1;
            proof {
                let upto = self@.locals.take(i + 1);
                assert(upto.last() == scope_view(self.locals@[i as int]));
                assert(upto.drop_last() =~= self@.locals.take(i as int));
            }
            match self.locals[i].get(name) {
                Some(value) => {
                    return Some(*value);
                },
                None => {},
            }
        }
        proof {
            assert(self@.locals.take(0).len() == 0);
        }
        match self.globals.get(name) {
            Some(value) => Some(*value),
            None => None,
        }
    }

    /// The values of `args`, from left to right.
    pub fn evaluate_arguments(&self, args: &Vec<Expression>) -> (result: Result<
        Vec<isize>,
        RuntimeError,
    >)
        ensures
            (match values(self@, view_each(args@)) {
                Ok(wanted) => result matches Ok(numbers) && integers(numbers@) == wanted,
                Err(e) => result matches Err(err) && err@ == e,
            }),
            result matches Ok(numbers) ==> numbers.len() == args.len(),
    {
        let mut numbers: Vec<isize> = Vec::new();
        let ghost items = view_each(args@);
        assert(integers(numbers@) =~= Seq::<int>::empty());
        let mut i: usize = 0;
        while i < args.len()
            invariant
                i <= args.len(),
                numbers.len() == i,
                items == view_each(args@),
                values(self@, items.take(i as int)) == Ok::<Seq<int>, RuntimeErrorView>(
                    integers(numbers@),
                ),
            decreases args.len() - i,
        {
            proof {
                assert(items.take(i + 1).drop_last() =~= items.take(i as int));
                assert(items.take(i + 1).last() == args[i as int]@);
            }
            let ghost before = integers(numbers@);
            match self.evaluate_expression(&args[i]) {
                Ok(n) => {
                    numbers.push(n);
                    assert(integers(numbers@) =~= before.push(n as int));
                },
                Err(e) => {
                    proof {
                        lemma_values_fail(self@, items, i + 1);
                    }
                    return Err(e);
                },
            }
            i += 1;
        }
        assert(items.take(i as int) =~= items);
        Ok(numbers)
    }

    /// The value of `expr`. The state stays as it is.
    pub fn evaluate_expression(&self, expr: &Expression) -> (result: Result<isize, RuntimeError>)
        ensures
            gives(result, value(self@, expr@)),
    {
        match expr {
            Expression::ArithmeticExpression { postfix } => {
                proof {
                    crate::parser::lemma_arithmetic_view(*expr);
                }
                self.evaluate_postfix(postfix)
            },
            _ => self.evaluate_operand(expr),
        }
    }

    /// The value of a number or a variable.
    pub fn evaluate_operand(&self, expr: &Expression) -> (result: Result<isize, RuntimeError>)
        ensures
            gives(result, operand(self@, expr@)),
    {
        match expr {
            Expression::Number { val } => Ok(*val),
            Expression::Variable { name } => match self.lookup(name) {
                Some(value) => Ok(value),
                None => Err(RuntimeError::VariableNotFound { name: name.clone() }),
            },
            Expression::Operator { op } => {
                let name = match op {
                    Operator::Addition => "Addition",
                    Operator::Subtraction => "Subtraction",
                    Operator::Multiplication => "Multiplication",
                    Operator::Division => "Division",
                };
                Err(
                    RuntimeError::Other(
                        String::from_str("Encountered unexpected operator ").concat(name),
                    ),
                )
            },
            Expression::ArithmeticExpression { .. } => Err(
                RuntimeError::Other(
                    String::from_str(
                        "reverse polish notation should only contain numbers, variables and operators",
                    ),
                ),
            ),
        }
    }

    /// The value of an arithmetic expression in postfix order.
    pub fn evaluate_postfix(&self, postfix: &Vec<Expression>) -> (result: Result<
        isize,
        RuntimeError,
    >)
        ensures
            gives(result, postfix_value(self@, view_each(postfix@))),
    {
        let mut stack: Vec<isize> = Vec::new();
        let ghost items = view_each(postfix@);
        assert(integers(stack@) =~= Seq::<int>::empty());
        let mut i: usize = 0;
        while i < postfix.len()
            invariant
                i <= postfix.len(),
                items == view_each(postfix@),
                postfix_run(self@, Seq::empty(), items.take(i as int)) == Ok::<
                    Seq<int>,
                    RuntimeErrorView,
                >(integers(stack@)),
            decreases postfix.len() - i,
        {
            proof {
                assert(items.take(i + 1).drop_last() =~= items.take(i as int));
                assert(items.take(i + 1).last() == postfix[i as int]@);
                lemma_postfix_fail(self@, items, i + 1);
            }
            let ghost before = integers(stack@);
            match &postfix[i] {
                Expression::Operator { op } => {
                    if stack.len() < 2 {
                        return Err(
                            RuntimeError::Other(
                                String::from_str("reverse polish notation lacks an operand"),
                            ),
                        );
                    }
                    let right = stack[stack.len() - 1];
                    let left = stack[stack.len() - 2];
                    let computed = match apply_operator(*op, left, right) {
                        Ok(n) => n,
                        Err(e) => {
                            return Err(e);
                        },
                    };
                    stack.pop();
                    stack.pop();
                    stack.push(computed);
                    assert(integers(stack@) =~= before.take(before.len() - 2).push(
                        computed as int,
                    ));
                },
                item => {
                    let number = match self.evaluate_operand(item) {
                        Ok(n) => n,
                        Err(e) => {
                            return Err(e);
                        },
                    };
                    stack.push(number);
                    assert(integers(stack@) =~= before.push(number as int));
                },
            }
            i += 1;
        }
        assert(items.take(i as int) =~= items);
        if stack.len() > 0 {
            Ok(stack[0])
        } else {
            Err(RuntimeError::Other(String::from_str("reverse polish notation yields no value")))
        }
    }
}

/// Where the items up to `n` fail, all of them fail in the same way.
pub proof fn lemma_values_fail(memory: Memory, items: Seq<ExprView>, n: int)
    requires
        0 <= n <= items.len(),
        values(memory, items.take(n)) is Err,
    ensures
        values(memory, items) == values(memory, items.take(n)),
    decreases items.len() - n,
{
    if n == items.len() {
        assert(items.take(n) =~= items);
    } else {
        assert(items.take(n + 1).drop_last() =~= items.take(n));
        lemma_values_fail(memory, items, n + 1);
    }
}

/// Where a postfix sequence fails within its first `n` items, it fails in
/// the same way as a whole.
pub proof fn lemma_postfix_fail(memory: Memory, items: Seq<ExprView>, n: int)
    requires
        0 <= n <= items.len(),
    ensures
        postfix_run(memory, Seq::empty(), items.take(n)) is Err ==> postfix_run(
            memory,
            Seq::empty(),
            items,
        ) == postfix_run(memory, Seq::empty(), items.take(n)),
    decreases items.len() - n,
{
    if n == items.len() {
        assert(items.take(n) =~= items);
    } else {
        assert(items.take(n + 1).drop_last() =~= items.take(n));
        lemma_postfix_fail(memory, items, n + 1);
    }
}

} // verus!
