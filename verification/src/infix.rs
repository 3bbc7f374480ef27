//! Arithmetic as it is written, and why its postfix order computes the same.

use crate::error::{ParseErrorView, RuntimeErrorView};
use crate::evaluator::{apply, operand, postfix_run, postfix_step, value, Memory};
use crate::lexer::{Operator, TokenView};
use crate::parser::{
    arithmetic, arithmetic_end, expression, in_arithmetic, operand_then, ExprView, Parsed,
    Pending, Yard,
};
use crate::text::integer_of;
use vstd::prelude::*;

verus! {

/// An arithmetic expression as a tree: what the usual reading of a written
/// expression sees in it.
pub enum Infix {
    /// A number literal.
    Number { literal: Seq<char> },
    /// A variable.
    Variable { name: Seq<char> },
    /// An expression in parentheses.
    Group { inner: Box<Infix> },
    /// An operator between its operands.
    Binary { op: Operator, left: Box<Infix>, right: Box<Infix> },
}

impl Infix {
    /// How tightly the expression holds together: the binding of its
    /// operator, and more than any operator's for an operand or a group.
    pub open spec fn level(self) -> nat {
        match self {
            Infix::Binary { op, .. } => op.binding(),
            _ => 3,
        }
    }

    /// Whether the tree is the usual reading of what it writes: every number
    /// literal writes an integer of the machine; the left operand of an
    /// operator binds at least as tightly as the operator, so that equal
    /// operators group from the left; the right operand binds more tightly.
    /// Anything else needs parentheses, which make a group.
    pub open spec fn well_formed(self) -> bool
        decreases self,
    {
        match self {
            Infix::Number { literal } => integer_of(literal) is Some,
            Infix::Variable { .. } => true,
            Infix::Group { inner } => inner.well_formed(),
            Infix::Binary { op, left, right } => {
                &&& left.well_formed()
                &&& right.well_formed()
                &&& left.level() >= op.binding()
                &&& right.level() > op.binding()
            },
        }
    }

    /// The expression as it is written.
    pub open spec fn tokens(self) -> Seq<TokenView>
        decreases self,
    {
        match self {
            Infix::Number { literal } => seq![TokenView::Number { literal }],
            Infix::Variable { name } => seq![TokenView::Variable { name }],
            Infix::Group { inner } => seq![TokenView::LParen] + inner.tokens()
                + seq![TokenView::RParen],
            Infix::Binary { op, left, right } => left.tokens() + seq![TokenView::Operator(op)]
                + right.tokens(),
        }
    }

    /// The postfix order of the expression: each operator behind its
    /// operands.
    pub open spec fn postfix(self) -> Seq<ExprView>
        decreases self,
    {
        match self {
            Infix::Number { literal } => seq![ExprView::Number { val: integer_of(literal)->0 }],
            Infix::Variable { name } => seq![ExprView::Variable { name }],
            Infix::Group { inner } => inner.postfix(),
            Infix::Binary { op, left, right } => left.postfix() + right.postfix()
                + seq![ExprView::Operator { op }],
        }
    }

    /// The value of the expression as the tree gives it: the operands of an
    /// operator from left to right, then the operator.
    pub open spec fn value(self, memory: Memory) -> Result<int, RuntimeErrorView>
        decreases self,
    {
        match self {
            Infix::Number { literal } => Ok(integer_of(literal)->0),
            Infix::Variable { name } => operand(memory, ExprView::Variable { name }),
            Infix::Group { inner } => inner.value(memory),
            Infix::Binary { op, left, right } => match left.value(memory) {
                Ok(a) => match right.value(memory) {
                    Ok(b) => apply(op, a, b),
                    Err(e) => Err(e),
                },
                Err(e) => Err(e),
            },
        }
    }

    /// The operators that wait on the stack when the expression has been
    /// read: its own and those of its right operands.
    pub open spec fn waiting(self) -> Seq<Pending>
        decreases self,
    {
        match self {
            Infix::Binary { op, left, right } => seq![Pending::Op(op)] + right.waiting(),
            _ => Seq::empty(),
        }
    }

    /// What is in the output when the expression has been read: its postfix
    /// order without the operators that wait.
    pub open spec fn emitted(self) -> Seq<ExprView>
        decreases self,
    {
        match self {
            Infix::Binary { op, left, right } => left.postfix() + right.emitted(),
            _ => self.postfix(),
        }
    }
}

/// What comes out when the operators of `stack` are taken from its top.
pub open spec fn taken(stack: Seq<Pending>) -> Seq<ExprView>
    decreases stack.len(),
{
    if stack.len() == 0 {
        Seq::empty()
    } else {
        match stack.last() {
            Pending::Op(op) => seq![ExprView::Operator { op }] + taken(stack.drop_last()),
            Pending::Open => taken(stack.drop_last()),
        }
    }
}

/// Whether `stack` holds only operators that bind at least as tightly as
/// `binding`.
pub open spec fn all_bind(stack: Seq<Pending>, binding: nat) -> bool {
    forall|i: int|
        0 <= i < stack.len() ==> match #[trigger] stack[i] {
            Pending::Op(op) => op.binding() >= binding,
            Pending::Open => false,
        }
}

/// Whether the top of `stack` lets an operator of `binding` stand above it: a
/// mark, or an operator that binds less tightly, or nothing.
pub open spec fn rests(stack: Seq<Pending>, binding: nat) -> bool {
    stack.len() == 0 || match stack.last() {
        Pending::Op(op) => op.binding() < binding,
        Pending::Open => true,
    }
}

proof fn lemma_taken_front(op: Operator, held: Seq<Pending>)
    ensures
        taken(seq![Pending::Op(op)] + held) == taken(held).push(ExprView::Operator { op }),
    decreases held.len(),
{
    let whole = seq![Pending::Op(op)] + held;
    if held.len() == 0 {
        assert(whole.drop_last() =~= Seq::<Pending>::empty());
        assert(whole.last() == Pending::Op(op));
        assert(taken(Seq::<Pending>::empty()) =~= Seq::<ExprView>::empty());
        assert(taken(held) =~= Seq::<ExprView>::empty());
        assert(taken(whole) =~= taken(held) + seq![ExprView::Operator { op }]);
    } else {
        assert(whole.drop_last() =~= seq![Pending::Op(op)] + held.drop_last());
        assert(whole.last() == held.last());
        lemma_taken_front(op, held.drop_last());
        match held.last() {
            Pending::Op(top) => {
                assert(taken(whole) =~= taken(held) + seq![ExprView::Operator { op }]);
            },
            Pending::Open => {},
        }
    }
}

proof fn lemma_yield(yard: Yard, held: Seq<Pending>, binding: nat)
    requires
        all_bind(held, binding),
        rests(yard.stack, binding),
    ensures
        (Yard { stack: yard.stack + held, output: yard.output }).yield_to(binding) == (Yard {
            stack: yard.stack,
            output: yard.output + taken(held),
        }),
    decreases held.len(),
{
    let full = Yard { stack: yard.stack + held, output: yard.output };
    if held.len() == 0 {
        assert(yard.stack + held =~= yard.stack);
        assert(yard.output + taken(held) =~= yard.output);
    } else {
        let op = held.last()->Op_0;
        assert(held.last() is Op);
        assert(full.stack.last() == held.last());
        assert(full.stack.drop_last() =~= yard.stack + held.drop_last());
        let next = Yard {
            stack: yard.stack,
            output: yard.output.push(ExprView::Operator { op }),
        };
        lemma_yield(next, held.drop_last(), binding);
        assert(full.moved(op) == (Yard {
            stack: next.stack + held.drop_last(),
            output: next.output,
        }));
        assert(next.output + taken(held.drop_last()) =~= yard.output + taken(held));
    }
}

proof fn lemma_close(yard: Yard, held: Seq<Pending>)
    requires
        all_bind(held, 0),
    ensures
        (Yard { stack: yard.stack.push(Pending::Open) + held, output: yard.output }).close()
            == Some(Yard { stack: yard.stack, output: yard.output + taken(held) }),
    decreases held.len(),
{
    let full = Yard { stack: yard.stack.push(Pending::Open) + held, output: yard.output };
    if held.len() == 0 {
        assert(full.stack =~= yard.stack.push(Pending::Open));
        assert(full.stack.drop_last() =~= yard.stack);
        assert(yard.output + taken(held) =~= yard.output);
    } else {
        let op = held.last()->Op_0;
        assert(held.last() is Op);
        assert(full.stack.last() == held.last());
        assert(full.stack.drop_last() =~= yard.stack.push(Pending::Open) + held.drop_last());
        let next = Yard {
            stack: yard.stack,
            output: yard.output.push(ExprView::Operator { op }),
        };
        lemma_close(next, held.drop_last());
        assert(full.moved(op) == (Yard {
            stack: next.stack.push(Pending::Open) + held.drop_last(),
            output: next.output,
        }));
        assert(next.output + taken(held.drop_last()) =~= yard.output + taken(held));
    }
}

proof fn lemma_finish(output: Seq<ExprView>, held: Seq<Pending>)
    requires
        all_bind(held, 0),
    ensures
        (Yard { stack: held, output }).finish() == Some(output + taken(held)),
    decreases held.len(),
{
    let full = Yard { stack: held, output };
    if held.len() == 0 {
        assert(output + taken(held) =~= output);
    } else {
        let op = held.last()->Op_0;
        assert(held.last() is Op);
        lemma_finish(output.push(ExprView::Operator { op }), held.drop_last());
        assert(output.push(ExprView::Operator { op }) + taken(held.drop_last()) =~= output
            + taken(held));
    }
}

/// The operators that wait bind at least as tightly as the expression, and
/// with what is in the output they make up its postfix order.
proof fn lemma_waiting(t: Infix)
    requires
        t.well_formed(),
    ensures
        all_bind(t.waiting(), t.level()),
        t.emitted() + taken(t.waiting()) == t.postfix(),
    decreases t,
{
    match t {
        Infix::Binary { op, left, right } => {
            lemma_waiting(*right);
            lemma_taken_front(op, right.waiting());
            assert(t.emitted() + taken(t.waiting()) =~= t.postfix());
        },
        _ => {
            assert(t.emitted() + taken(t.waiting()) =~= t.postfix());
        },
    }
}

/// What an expression writes is made of arithmetic tokens, at least one.
proof fn lemma_tokens(t: Infix)
    ensures
        t.tokens().len() >= 1,
        forall|i: int| 0 <= i < t.tokens().len() ==> in_arithmetic(#[trigger] t.tokens()[i]),
        t.tokens()[0] is Number || t.tokens()[0] is Variable || t.tokens()[0] is LParen,
        t is Number || t is Variable ==> t.tokens().len() == 1,
        t is Binary && !(t.tokens()[0] is LParen) ==> t.tokens().len() >= 2
            && t.tokens()[1] is Operator,
    decreases t,
{
    match t {
        Infix::Group { inner } => {
            lemma_tokens(*inner);
        },
        Infix::Binary { op, left, right } => {
            lemma_tokens(*left);
            lemma_tokens(*right);
            let whole = t.tokens();
            assert forall|i: int| 0 <= i < whole.len() implies in_arithmetic(
                #[trigger] whole[i],
            ) by {
                if i < left.tokens().len() {
                    assert(whole[i] == left.tokens()[i]);
                } else if i > left.tokens().len() {
                    assert(whole[i] == right.tokens()[i - left.tokens().len() - 1]);
                }
            }
            assert(whole[0] == left.tokens()[0]);
            if !(whole[0] is LParen) {
                if left.tokens().len() >= 2 {
                    assert(whole[1] == left.tokens()[1]);
                } else {
                    assert(whole[1] == TokenView::Operator(op));
                }
            }
        },
        _ => {},
    }
}

/// Reading a well-formed expression moves the yard from where its operators
/// may rest to where they wait, with the rest of it in the output.
proof fn lemma_read(t: Infix, yard: Yard, tokens: Seq<TokenView>, from: int, end: int)
    requires
        t.well_formed(),
        0 <= from,
        from + t.tokens().len() <= end <= tokens.len(),
        tokens.subrange(from, from + t.tokens().len()) == t.tokens(),
        rests(yard.stack, t.level()),
    ensures
        yard.run(tokens, from, end) == (Yard {
            stack: yard.stack + t.waiting(),
            output: yard.output + t.emitted(),
        }).run(tokens, from + t.tokens().len(), end),
    decreases t,
{
    let n = t.tokens().len() as int;
    let written = t.tokens();
    assert forall|i: int| 0 <= i < n implies tokens[from + i] == written[i] by {
        assert(tokens.subrange(from, from + n)[i] == tokens[from + i]);
    }
    match t {
        Infix::Number { literal } => {
            assert(tokens[from] == written[0]);
            let after = yard.emit(ExprView::Number { val: integer_of(literal)->0 });
            assert(after.stack =~= yard.stack + t.waiting());
            assert(after.output =~= yard.output + t.emitted());
        },
        Infix::Variable { name } => {
            assert(tokens[from] == written[0]);
            let after = yard.emit(ExprView::Variable { name });
            assert(after.stack =~= yard.stack + t.waiting());
            assert(after.output =~= yard.output + t.emitted());
        },
        Infix::Group { inner } => {
            let ni = inner.tokens().len() as int;
            assert(tokens[from] == written[0]);
            assert(tokens[from + ni + 1] == written[ni + 1]);
            assert(tokens.subrange(from + 1, from + 1 + ni) =~= inner.tokens()) by {
                assert forall|i: int| 0 <= i < ni implies tokens[from + 1 + i]
                    == inner.tokens()[i] by {
                    assert(written[i + 1] == inner.tokens()[i]);
                }
            }
            let opened = yard.hold(Pending::Open);
            lemma_read(*inner, opened, tokens, from + 1, end);
            lemma_waiting(*inner);
            let inside = Yard {
                stack: opened.stack + inner.waiting(),
                output: opened.output + inner.emitted(),
            };
            assert(all_bind(inner.waiting(), 0));
            lemma_close(Yard { stack: yard.stack, output: inside.output }, inner.waiting());
            let closed = Yard { stack: yard.stack, output: inside.output + taken(inner.waiting()) };
            assert(inside.close() == Some(closed));
            assert(inside.step(tokens[from + ni + 1]) == Ok::<Yard, ParseErrorView>(closed));
            assert(closed.stack =~= yard.stack + t.waiting());
            assert(closed.output =~= yard.output + t.emitted());
        },
        Infix::Binary { op, left, right } => {
            let nl = left.tokens().len() as int;
            let nr = right.tokens().len() as int;
            assert(tokens[from + nl] == written[nl]);
            assert(tokens.subrange(from, from + nl) =~= left.tokens()) by {
                assert forall|i: int| 0 <= i < nl implies tokens[from + i] == left.tokens()[i] by {
                    assert(written[i] == left.tokens()[i]);
                }
            }
            assert(tokens.subrange(from + nl + 1, from + nl + 1 + nr) =~= right.tokens()) by {
                assert forall|i: int| 0 <= i < nr implies tokens[from + nl + 1 + i]
                    == right.tokens()[i] by {
                    assert(written[nl + 1 + i] == right.tokens()[i]);
                }
            }
            lemma_read(*left, yard, tokens, from, end);
            lemma_waiting(*left);
            let read_left = Yard {
                stack: yard.stack + left.waiting(),
                output: yard.output + left.emitted(),
            };
            lemma_yield(
                Yard { stack: yard.stack, output: read_left.output },
                left.waiting(),
                op.binding(),
            );
            let yielded = Yard {
                stack: yard.stack,
                output: read_left.output + taken(left.waiting()),
            };
            assert(read_left.yield_to(op.binding()) == yielded);
            let held = yielded.hold(Pending::Op(op));
            assert(read_left.step(tokens[from + nl]) == Ok::<Yard, ParseErrorView>(held));
            lemma_read(*right, held, tokens, from + nl + 1, end);
            let done = Yard {
                stack: held.stack + right.waiting(),
                output: held.output + right.emitted(),
            };
            assert(done.stack =~= yard.stack + t.waiting());
            assert(yielded.output =~= yard.output + left.postfix());
            assert(done.output =~= yard.output + t.emitted());
        },
    }
}

/// A postfix sequence in two parts runs as the first part, then the second.
pub proof fn lemma_postfix_run_concat(
    memory: Memory,
    stack: Seq<int>,
    front: Seq<ExprView>,
    back: Seq<ExprView>,
)
    ensures
        postfix_run(memory, stack, front + back) == (match postfix_run(memory, stack, front) {
            Ok(between) => postfix_run(memory, between, back),
            Err(e) => Err(e),
        }),
    decreases back.len(),
{
    if back.len() == 0 {
        assert(front + back =~= front);
    } else {
        assert((front + back).drop_last() =~= front + back.drop_last());
        assert((front + back).last() == back.last());
        lemma_postfix_run_concat(memory, stack, front, back.drop_last());
    }
}

/// The postfix order of a well-formed expression leaves its value on top of
/// the operand stack, or fails as the expression does.
pub proof fn lemma_postfix_runs(t: Infix, memory: Memory, stack: Seq<int>)
    requires
        t.well_formed(),
    ensures
        postfix_run(memory, stack, t.postfix()) == (match t.value(memory) {
            Ok(v) => Ok(stack.push(v)),
            Err(e) => Err(e),
        }),
    decreases t,
{
    let items = t.postfix();
    match t {
        Infix::Number { literal } => {
            assert(items.drop_last() =~= Seq::<ExprView>::empty());
            assert(postfix_run(memory, stack, items.drop_last()) == Ok::<
                Seq<int>,
                RuntimeErrorView,
            >(stack));
        },
        Infix::Variable { name } => {
            assert(items.drop_last() =~= Seq::<ExprView>::empty());
            assert(postfix_run(memory, stack, items.drop_last()) == Ok::<
                Seq<int>,
                RuntimeErrorView,
            >(stack));
        },
        Infix::Group { inner } => {
            lemma_postfix_runs(*inner, memory, stack);
        },
        Infix::Binary { op, left, right } => {
            let last = seq![ExprView::Operator { op }];
            lemma_postfix_run_concat(memory, stack, left.postfix() + right.postfix(), last);
            lemma_postfix_run_concat(memory, stack, left.postfix(), right.postfix());
            lemma_postfix_runs(*left, memory, stack);
            if let Ok(a) = left.value(memory) {
                lemma_postfix_runs(*right, memory, stack.push(a));
                if let Ok(b) = right.value(memory) {
                    let both = stack.push(a).push(b);
                    assert(last.drop_last() =~= Seq::<ExprView>::empty());
                    assert(postfix_run(memory, both, last.drop_last()) == Ok::<
                        Seq<int>,
                        RuntimeErrorView,
                    >(both));
                    assert(postfix_run(memory, both, last) == postfix_step(
                        memory,
                        both,
                        ExprView::Operator { op },
                    ));
                    assert(both.take(both.len() - 2) =~= stack);
                }
            }
        },
    }
}

/// An expression that is followed by no arithmetic token ends the run of
/// arithmetic tokens that it stands in.
proof fn lemma_run_ends(written: Seq<TokenView>, rest: Seq<TokenView>, from: int)
    requires
        0 <= from <= written.len(),
        forall|i: int| 0 <= i < written.len() ==> in_arithmetic(#[trigger] written[i]),
        rest.len() == 0 || !in_arithmetic(rest[0]),
    ensures
        arithmetic_end(written + rest, from) == written.len(),
    decreases written.len() - from,
{
    let tokens = written + rest;
    if from < written.len() {
        assert(tokens[from] == written[from]);
        lemma_run_ends(written, rest, from + 1);
    } else if rest.len() > 0 {
        assert(tokens[from] == rest[0]);
    }
}

/// The parser is right about arithmetic. Take a well-formed expression, write
/// it down, and let no arithmetic token follow it. Then the parser reads the
/// whole of it, and what it builds has, by the operand-stack rule, the value
/// that the expression has as a tree: operators that bind more tightly first,
/// equal ones from left to right, groups on their own. Where the tree fails
/// (a variable that is not bound, a division by zero, a result out of range)
/// the postfix order fails in the same way.
pub proof fn lemma_postfix_correct(t: Infix, rest: Seq<TokenView>, memory: Memory)
    requires
        t.well_formed(),
        rest.len() == 0 || !in_arithmetic(rest[0]),
    ensures
        expression(t.tokens() + rest, 0).next == t.tokens().len(),
        expression(t.tokens() + rest, 0).outcome is Ok,
        value(memory, expression(t.tokens() + rest, 0).outcome->Ok_0) == t.value(memory),
        t is Binary || t is Group ==> expression(t.tokens() + rest, 0).outcome == Ok::<
            ExprView,
            ParseErrorView,
        >(ExprView::ArithmeticExpression { postfix: t.postfix() }),
{
    let written = t.tokens();
    let tokens = written + rest;
    let n = written.len() as int;
    lemma_tokens(t);
    lemma_run_ends(written, rest, 0);
    lemma_run_ends(written, rest, 1);
    assert(tokens[0] == written[0]);
    assert(tokens.subrange(0, n) =~= written);
    let empty = Yard { stack: Seq::empty(), output: Seq::empty() };
    lemma_read(t, empty, tokens, 0, n);
    lemma_waiting(t);
    let read = Yard { stack: empty.stack + t.waiting(), output: empty.output + t.emitted() };
    assert(read.stack =~= t.waiting());
    assert(read.output =~= t.emitted());
    assert(empty.run(tokens, 0, n) == Parsed {
        outcome: Ok::<Yard, ParseErrorView>(read),
        next: n,
    });
    lemma_finish(t.emitted(), t.waiting());
    lemma_postfix_runs(t, memory, Seq::empty());
    match t {
        Infix::Number { literal } => {
            if rest.len() > 0 {
                assert(tokens[1] == rest[0]);
            }
        },
        Infix::Variable { name } => {
            if rest.len() > 0 {
                assert(tokens[1] == rest[0]);
            }
        },
        _ => {
            let wanted = ExprView::ArithmeticExpression { postfix: t.postfix() };
            if let Ok(v) = t.value(memory) {
                assert(Seq::<int>::empty().push(v)[0] == v);
            }
            if tokens[0] is LParen {
                assert(expression(tokens, 0) == arithmetic(tokens, 0, Seq::empty()));
            } else {
                assert(t is Binary);
                assert(tokens[1] == written[1]);
                // the operand that stands first is taken before the run
                let first = empty.step(tokens[0]);
                assert(first is Ok);
                let seeded = first->Ok_0;
                assert(empty.run(tokens, 0, n) == seeded.run(tokens, 1, n));
                assert(seeded.stack =~= Seq::<Pending>::empty());
                let operand_first = seeded.output[0];
                assert(seeded.output =~= seq![operand_first]);
                assert(expression(tokens, 0) == operand_then(tokens, 1, operand_first));
                assert(expression(tokens, 0) == arithmetic(tokens, 1, seq![operand_first]));
            }
            assert(expression(tokens, 0).outcome == Ok::<ExprView, ParseErrorView>(
                wanted,
            ));
        },
    }
}

} // verus!
