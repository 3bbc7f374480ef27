//! What calls do, and what they leave alone.

use crate::command::command_named;
use crate::error::RuntimeErrorView;
use crate::evaluator::{
    frame_of, run_block, run_call, run_repeat, run_statement, value, values, Memory, Outcome,
};
use crate::parser::{ExprView, StmtView};
use vstd::prelude::*;

verus! {

/// Whether `after` has the global variables of `before` and, below the
/// innermost scope, its local ones.
pub open spec fn outer_kept(before: Memory, after: Memory) -> bool {
    &&& after.globals == before.globals
    &&& after.locals.len() == before.locals.len()
    &&& after.locals.drop_last() == before.locals.drop_last()
}

/// A command that is called with another number of arguments than it takes
/// fails with an argument count mismatch, which names the number it takes.
/// The call emits no instruction and changes nothing.
pub proof fn lemma_command_arity(
    memory: Memory,
    name: Seq<char>,
    args: Seq<ExprView>,
    depth: nat,
)
    requires
        command_named(name) is Some,
        args.len() != command_named(name)->0.arguments(),
    ensures
        run_statement(memory, (StmtView::ProcedureCall { name, args }), depth) == Outcome::failed(
            memory,
            (RuntimeErrorView::ArgCountMismatch { expected: command_named(name)->0.arguments() }),
        ),
{
}

/// A call of a declared procedure is its body, run in a new scope that binds
/// the parameters to the arguments, with that scope dropped afterwards. So a
/// procedure that calls itself does what its body does with the inner call
/// written out, level by level, as long as the calls nest no deeper than the
/// evaluator allows.
pub proof fn lemma_call_unrolls(memory: Memory, name: Seq<char>, args: Seq<ExprView>, depth: nat)
    requires
        command_named(name) is None,
        memory.procedures.contains_key(name),
        args.len() == memory.procedures[name].params.len(),
        values(memory, args) is Ok,
        depth > 0,
    ensures
        run_statement(memory, (StmtView::ProcedureCall { name, args }), depth) == run_block(
            memory.enter(frame_of(memory.procedures[name].params, values(memory, args)->Ok_0)),
            memory.procedures[name].body,
            0,
            (depth - 1) as nat,
        ).returned(),
{
}

/// A call that would nest deeper than the evaluator allows fails and changes
/// nothing.
pub proof fn lemma_call_too_deep(memory: Memory, name: Seq<char>, args: Seq<ExprView>)
    requires
        command_named(name) is None,
        memory.procedures.contains_key(name),
        args.len() == memory.procedures[name].params.len(),
        values(memory, args) is Ok,
    ensures
        run_statement(memory, (StmtView::ProcedureCall { name, args }), 0) == Outcome::failed(
            memory,
            RuntimeErrorView::CallDepthExceeded,
        ),
{
}

/// A call leaves every variable as it was, whether it ends well or fails: what
/// the procedure declares lives in the scope of the call, which is gone when
/// the call returns, and a global variable that the procedure shadows keeps
/// its value.
pub proof fn lemma_call_keeps_variables(
    memory: Memory,
    name: Seq<char>,
    args: Seq<ExprView>,
    depth: nat,
)
    ensures
        run_call(memory, name, args, depth).memory.globals == memory.globals,
        run_call(memory, name, args, depth).memory.locals == memory.locals,
        forall|variable: Seq<char>|
            run_call(memory, name, args, depth).memory.lookup(variable) == memory.lookup(
                variable,
            ),
    decreases depth, 0nat, args, 0nat, 0nat,
{
    if command_named(name) is None && memory.procedures.contains_key(name) {
        let procedure = memory.procedures[name];
        if args.len() == procedure.params.len() && values(memory, args) is Ok && depth > 0 {
            let inside = memory.enter(frame_of(procedure.params, values(memory, args)->Ok_0));
            lemma_block_keeps_outer(inside, procedure.body, 0, (depth - 1) as nat);
            assert(inside.locals.drop_last() =~= memory.locals);
        }
    }
}

/// Inside a procedure a statement changes no variable but those of the
/// innermost scope.
pub proof fn lemma_statement_keeps_outer(memory: Memory, s: StmtView, depth: nat)
    requires
        memory.locals.len() > 0,
    ensures
        outer_kept(memory, run_statement(memory, s, depth).memory),
    decreases depth, 1nat, s, 0nat, 0nat,
{
    match s {
        StmtView::ProcedureDeclaration { .. } => {},
        StmtView::ProcedureCall { name, args } => {
            lemma_call_keeps_variables(memory, name, args, depth);
        },
        StmtView::VariableDeclaration { name, val } => {
            if let Ok(v) = value(memory, val) {
                assert(memory.assign(name, v).locals.drop_last() =~= memory.locals.drop_last());
            }
        },
        StmtView::Repeat { count, body } => {
            if let Ok(times) = value(memory, count) {
                lemma_repeat_keeps_outer(
                    memory,
                    body,
                    if times > 0 {
                        times as nat
                    } else {
                        0
                    },
                    depth,
                );
            }
        },
    }
}

/// Inside a procedure a block changes no variable but those of the innermost
/// scope.
pub proof fn lemma_block_keeps_outer(memory: Memory, block: Seq<StmtView>, from: int, depth: nat)
    requires
        memory.locals.len() > 0,
    ensures
        outer_kept(memory, run_block(memory, block, from, depth).memory),
    decreases depth, 1nat, block, 0nat, block.len() - from,
{
    if 0 <= from < block.len() {
        lemma_statement_keeps_outer(memory, block[from], depth);
        let first = run_statement(memory, block[from], depth);
        if first.error is None {
            lemma_block_keeps_outer(first.memory, block, from + 1, depth);
        }
    }
}

/// Inside a procedure a loop changes no variable but those of the innermost
/// scope.
pub proof fn lemma_repeat_keeps_outer(memory: Memory, body: Seq<StmtView>, times: nat, depth: nat)
    requires
        memory.locals.len() > 0,
    ensures
        outer_kept(memory, run_repeat(memory, body, times, depth).memory),
    decreases depth, 1nat, body, times, 0nat,
{
    if times > 0 {
        lemma_block_keeps_outer(memory, body, 0, depth);
        let first = run_block(memory, body, 0, depth);
        if first.error is None {
            lemma_repeat_keeps_outer(first.memory, body, (times - 1) as nat, depth);
        }
    }
}

/// The limit on nesting matters only where it is met: a call that ends
/// without exceeding it does the same with any deeper nesting allowed.
pub proof fn lemma_call_depth_to_spare(
    memory: Memory,
    name: Seq<char>,
    args: Seq<ExprView>,
    depth: nat,
    more: nat,
)
    requires
        run_call(memory, name, args, depth).error != Some(RuntimeErrorView::CallDepthExceeded),
    ensures
        run_call(memory, name, args, depth + more) == run_call(memory, name, args, depth),
    decreases depth, 0nat, args, 0nat, 0nat,
{
    if command_named(name) is None && memory.procedures.contains_key(name) {
        let procedure = memory.procedures[name];
        if args.len() == procedure.params.len() && values(memory, args) is Ok && depth > 0 {
            let inside = memory.enter(frame_of(procedure.params, values(memory, args)->Ok_0));
            lemma_block_depth_to_spare(inside, procedure.body, 0, (depth - 1) as nat, more);
            assert((depth + more - 1) as nat == (depth - 1) as nat + more);
        }
    }
}

/// A statement that ends without exceeding the limit on nesting does the same
/// with any deeper nesting allowed.
pub proof fn lemma_statement_depth_to_spare(memory: Memory, s: StmtView, depth: nat, more: nat)
    requires
        run_statement(memory, s, depth).error != Some(RuntimeErrorView::CallDepthExceeded),
    ensures
        run_statement(memory, s, depth + more) == run_statement(memory, s, depth),
    decreases depth, 1nat, s, 0nat, 0nat,
{
    match s {
        StmtView::ProcedureCall { name, args } => {
            lemma_call_depth_to_spare(memory, name, args, depth, more);
        },
        StmtView::Repeat { count, body } => {
            if let Ok(times) = value(memory, count) {
                lemma_repeat_depth_to_spare(
                    memory,
                    body,
                    if times > 0 {
                        times as nat
                    } else {
                        0
                    },
                    depth,
                    more,
                );
            }
        },
        _ => {},
    }
}

/// A block that ends without exceeding the limit on nesting does the same
/// with any deeper nesting allowed.
pub proof fn lemma_block_depth_to_spare(
    memory: Memory,
    block: Seq<StmtView>,
    from: int,
    depth: nat,
    more: nat,
)
    requires
        run_block(memory, block, from, depth).error != Some(RuntimeErrorView::CallDepthExceeded),
    ensures
        run_block(memory, block, from, depth + more) == run_block(memory, block, from, depth),
    decreases depth, 1nat, block, 0nat, block.len() - from,
{
    if 0 <= from < block.len() {
        lemma_statement_depth_to_spare(memory, block[from], depth, more);
        let first = run_statement(memory, block[from], depth);
        if first.error is None {
            lemma_block_depth_to_spare(first.memory, block, from + 1, depth, more);
        }
    }
}

/// A loop that ends without exceeding the limit on nesting does the same
/// with any deeper nesting allowed.
pub proof fn lemma_repeat_depth_to_spare(
    memory: Memory,
    body: Seq<StmtView>,
    times: nat,
    depth: nat,
    more: nat,
)
    requires
        run_repeat(memory, body, times, depth).error != Some(RuntimeErrorView::CallDepthExceeded),
    ensures
        run_repeat(memory, body, times, depth + more) == run_repeat(memory, body, times, depth),
    decreases depth, 1nat, body, times, 0nat,
{
    if times > 0 {
        lemma_block_depth_to_spare(memory, body, 0, depth, more);
        let first = run_block(memory, body, 0, depth);
        if first.error is None {
            lemma_repeat_depth_to_spare(first.memory, body, (times - 1) as nat, depth, more);
        }
    }
}

} // verus!
