//! Laws that relate the tokenizer, the classifier, the converters, and the
//! evaluator to one another.
//!
//! The central notions are the *balance* of a postfix sequence — operands
//! gained minus operands consumed — and the *shape* of a well-built postfix
//! sequence: every operator finds two operands on the stack, and exactly
//! one value remains at the end.

use vstd::prelude::*;

use crate::errors::MathError;
use crate::notation::Notation;
use crate::notation::SyEntry;
use crate::notation::eval_fold;
use crate::notation::spec_classify;
use crate::notation::spec_evaluate;
use crate::notation::ItemV;
use crate::notation::eval_step;
use crate::notation::lemma_infix_wf;
use crate::notation::lemma_prefix_wf;
use crate::notation::spec_infix_to_postfix;
use crate::notation::spec_prefix_to_postfix;
use crate::notation::spec_render;
use crate::notation::spec_solve;
use crate::notation::sy_close;
use crate::notation::sy_drain;
use crate::notation::sy_fold;
use crate::notation::sy_pop_ge;
use crate::notation::sy_step;
use crate::parser::TokState;
use crate::parser::TokenV;
use crate::parser::lemma_tokenize_wf;
use crate::parser::spec_token_text;
use crate::parser::spec_op_of_char;
use crate::parser::spec_operator_char;
use crate::parser::spec_tokenize;
use crate::parser::spec_word_char;
use crate::parser::tok_flush;
use crate::parser::tok_fold;
use crate::parser::tok_step;
use crate::parser::wf_token;
use crate::parser::wf_tokens;
use crate::table::Op;
use crate::table::spec_op_char;
use crate::table::spec_lookup;

verus! {

/// How one token changes the size of the evaluation stack: an operand adds
/// a value, a binary operator consumes two and yields one.
pub open spec fn token_delta(t: TokenV) -> int {
    match t {
        TokenV::Number(_) => 1,
        TokenV::Symbol(_) => 1,
        TokenV::Operator(_) => -1,
        TokenV::LeftParen => 0,
        TokenV::RightParen => 0,
    }
}

/// The balance of the first `j` tokens: the size the evaluation stack has
/// after them, when no step fails.
pub open spec fn bal(ts: Seq<TokenV>, j: int) -> int
    decreases j,
{
    if j <= 0 {
        0
    } else {
        bal(ts, j - 1) + token_delta(ts[j - 1])
    }
}

/// A postfix sequence in evaluable shape: no parentheses, every operator
/// has at least two operands below it, and exactly one value is left at the
/// end.
pub open spec fn shape_ok(ts: Seq<TokenV>) -> bool {
    &&& forall|j: int| 0 <= j < ts.len() ==> ((#[trigger] ts[j]) is Operator ==> bal(ts, j) >= 2)
    &&& forall|j: int|
        0 <= j < ts.len() ==> !((#[trigger] ts[j]) is LeftParen) && !(ts[j] is RightParen)
    &&& bal(ts, ts.len() as int) == 1
}

/// Every operator of the sequence has an entry in the table.
pub open spec fn ops_known(ts: Seq<TokenV>, entries: Seq<(Op, u8)>) -> bool {
    forall|j: int|
        0 <= j < ts.len() ==> ((#[trigger] ts[j]) matches TokenV::Operator(op) ==> spec_lookup(
            entries,
            op,
        ) is Some)
}

/// A failure of the arithmetic itself, not of the statement's structure:
/// an unrepresentable result, a zero divisor, a fractional exponent, or a
/// symbol with no bound value.
pub open spec fn arithmetic_failure(e: MathError) -> bool {
    ||| e == MathError::Overflow
    ||| e == MathError::DivisionByZero
    ||| e == MathError::NonIntegerExponent
    ||| e == MathError::UnresolvedSymbol
}

/// Over a sequence whose first `n` tokens are in evaluable shape, the
/// evaluation stack tracks the balance exactly, and only the arithmetic can
/// fail.
proof fn lemma_eval_fold_size(ts: Seq<TokenV>, n: int, entries: Seq<(Op, u8)>)
    requires
        0 <= n <= ts.len(),
        forall|j: int| 0 <= j < n ==> ((#[trigger] ts[j]) is Operator ==> bal(ts, j) >= 2),
        forall|j: int| 0 <= j < n ==> !((#[trigger] ts[j]) is LeftParen) && !(ts[j] is RightParen),
        forall|j: int|
            0 <= j < n ==> ((#[trigger] ts[j]) matches TokenV::Operator(op) ==> spec_lookup(
                entries,
                op,
            ) is Some),
    ensures
        match eval_fold(ts, n, entries) {
            Ok(st) => st.len() == bal(ts, n),
            Err(e) => arithmetic_failure(e),
        },
    decreases n,
{
    if n > 0 {
        lemma_eval_fold_size(ts, n - 1, entries);
    }
}

/// Evaluating a sequence in evaluable shape never underflows and never
/// leaves extra operands: it yields one value, or fails only in the
/// arithmetic.
pub proof fn lemma_shape_eval(ts: Seq<TokenV>, entries: Seq<(Op, u8)>)
    requires
        shape_ok(ts),
        ops_known(ts, entries),
    ensures
        match spec_evaluate(ts, entries) {
            Ok(_) => true,
            Err(e) => arithmetic_failure(e),
        },
        eval_fold(ts, ts.len() as int, entries) matches Ok(st) ==> st.len() == 1,
{
    lemma_eval_fold_size(ts, ts.len() as int, entries);
}

/// Classifier priority: a token sequence whose last token is an operator is
/// always classified postfix, even when its first token is also an
/// operator — the postfix check wins the tie.
pub proof fn lemma_classifier_postfix_priority(ts: Seq<TokenV>)
    requires
        ts.len() > 0,
        ts.last() is Operator,
    ensures
        spec_classify(ts) == Notation::Postfix,
{
}


/// A prefix of a postfix sequence in evaluable shape: no parentheses, and
/// every operator has at least two operands below it.
pub open spec fn shape_prefix(ts: Seq<TokenV>) -> bool {
    &&& forall|j: int| 0 <= j < ts.len() ==> ((#[trigger] ts[j]) is Operator ==> bal(ts, j) >= 2)
    &&& forall|j: int|
        0 <= j < ts.len() ==> !((#[trigger] ts[j]) is LeftParen) && !(ts[j] is RightParen)
}

/// The balance of a prefix reads only the tokens in that prefix.
proof fn lemma_bal_prefix(a: Seq<TokenV>, b: Seq<TokenV>, j: int)
    requires
        0 <= j <= a.len(),
        j <= b.len(),
        forall|i: int| 0 <= i < j ==> a[i] == b[i],
    ensures
        bal(a, j) == bal(b, j),
    decreases j,
{
    if j > 0 {
        lemma_bal_prefix(a, b, j - 1);
    }
}

/// The balance across a concatenation splits into the two parts' balances.
proof fn lemma_bal_concat(a: Seq<TokenV>, b: Seq<TokenV>, j: int)
    requires
        0 <= j <= b.len(),
    ensures
        bal(a + b, a.len() + j) == bal(a, a.len() as int) + bal(b, j),
    decreases j,
{
    if j == 0 {
        lemma_bal_prefix(a + b, a, a.len() as int);
    } else {
        lemma_bal_concat(a, b, j - 1);
        assert((a + b)[a.len() + j - 1] == b[j - 1]);
    }
}

/// A block of operators alone has balance minus its length.
proof fn lemma_bal_ops(b: Seq<TokenV>, j: int)
    requires
        0 <= j <= b.len(),
        forall|i: int| 0 <= i < b.len() ==> (#[trigger] b[i]) is Operator,
    ensures
        bal(b, j) == -j,
    decreases j,
{
    if j > 0 {
        lemma_bal_ops(b, j - 1);
    }
}

/// Appending one operand token keeps a prefix in shape.
proof fn lemma_shape_push_operand(out: Seq<TokenV>, t: TokenV)
    requires
        shape_prefix(out),
        t is Number || t is Symbol,
    ensures
        shape_prefix(out.push(t)),
        bal(out.push(t), out.len() as int + 1) == bal(out, out.len() as int) + 1,
{
    let ext = out.push(t);
    assert forall|j: int| 0 <= j < ext.len() && ((#[trigger] ext[j]) is Operator) implies bal(
        ext,
        j,
    ) >= 2 by {
        lemma_bal_prefix(ext, out, j);
    }
    lemma_bal_prefix(ext, out, out.len() as int);
}

/// Appending a block of operators keeps a prefix in shape, provided the
/// balance covers one operand more than the block's length.
proof fn lemma_shape_append_ops(out: Seq<TokenV>, em: Seq<TokenV>)
    requires
        shape_prefix(out),
        forall|i: int| 0 <= i < em.len() ==> (#[trigger] em[i]) is Operator,
        bal(out, out.len() as int) >= em.len() + 1,
    ensures
        shape_prefix(out + em),
        bal(out + em, out.len() as int + em.len() as int) == bal(out, out.len() as int) - em.len(),
{
    let ext = out + em;
    assert forall|j: int| 0 <= j < ext.len() && ((#[trigger] ext[j]) is Operator) implies bal(
        ext,
        j,
    ) >= 2 by {
        if j < out.len() {
            lemma_bal_prefix(ext, out, j);
        } else {
            lemma_bal_concat(out, em, j - out.len());
            lemma_bal_ops(em, j - out.len());
        }
    }
    assert forall|j: int|
        0 <= j < ext.len() implies !((#[trigger] ext[j]) is LeftParen) && !(ext[j]
        is RightParen) by {
        if j < out.len() {
        } else {
            assert(ext[j] == em[j - out.len()]);
        }
    }
    lemma_bal_concat(out, em, em.len() as int);
    lemma_bal_ops(em, em.len() as int);
}

/// The number of pending operators on the side-stack.
pub open spec fn n_ops(stack: Seq<SyEntry>) -> int
    decreases stack.len(),
{
    if stack.len() == 0 {
        0
    } else {
        n_ops(stack.drop_last()) + (if stack.last() is Pending {
            1int
        } else {
            0int
        })
    }
}

/// The number of open parentheses on the side-stack.
pub open spec fn n_parens(stack: Seq<SyEntry>) -> int
    decreases stack.len(),
{
    if stack.len() == 0 {
        0
    } else {
        n_parens(stack.drop_last()) + (if stack.last() is Paren {
            1int
        } else {
            0int
        })
    }
}

/// Every pending operator on the side-stack has a table entry.
pub open spec fn stack_known(stack: Seq<SyEntry>, entries: Seq<(Op, u8)>) -> bool {
    forall|j: int|
        0 <= j < stack.len() ==> ((#[trigger] stack[j]) matches SyEntry::Pending(op, r)
            ==> spec_lookup(entries, op) is Some)
}

/// The side-stack counts are never negative.
proof fn lemma_counts_nonneg(stack: Seq<SyEntry>)
    ensures
        n_ops(stack) >= 0,
        n_parens(stack) >= 0,
    decreases stack.len(),
{
    if stack.len() > 0 {
        lemma_counts_nonneg(stack.drop_last());
    }
}

/// Pushing one entry adjusts the side-stack counts by that entry alone.
proof fn lemma_counts_push(stack: Seq<SyEntry>, e: SyEntry, entries: Seq<(Op, u8)>)
    requires
        stack_known(stack, entries),
        e matches SyEntry::Pending(op, r) ==> spec_lookup(entries, op) is Some,
    ensures
        n_ops(stack.push(e)) == n_ops(stack) + (if e is Pending {
            1int
        } else {
            0int
        }),
        n_parens(stack.push(e)) == n_parens(stack) + (if e is Paren {
            1int
        } else {
            0int
        }),
        stack_known(stack.push(e), entries),
{
    assert(stack.push(e).drop_last() =~= stack);
    assert forall|j: int|
        0 <= j < stack.push(e).len() implies ((#[trigger] stack.push(e)[j])
        matches SyEntry::Pending(op, r) ==> spec_lookup(entries, op) is Some) by {
        if j < stack.len() {
            assert(stack.push(e)[j] == stack[j]);
        }
    }
}

/// What the rank-driven pop emits and leaves: operators with table entries,
/// the counts adjusted exactly, and no parenthesis touched.
proof fn lemma_sy_pop_ge_counts(stack: Seq<SyEntry>, r: u8, entries: Seq<(Op, u8)>)
    requires
        stack_known(stack, entries),
    ensures
        ({
            let res = sy_pop_ge(stack, r);
            &&& res.0.len() <= n_ops(stack)
            &&& n_ops(res.1) == n_ops(stack) - res.0.len()
            &&& n_parens(res.1) == n_parens(stack)
            &&& stack_known(res.1, entries)
            &&& forall|j: int| 0 <= j < res.0.len() ==> (#[trigger] res.0[j]) is Operator
            &&& ops_known(res.0, entries)
        }),
    decreases stack.len(),
{
    lemma_counts_nonneg(stack);
    if stack.len() > 0 {
        lemma_counts_nonneg(stack.drop_last());
        match stack.last() {
            SyEntry::Pending(op, pr) => {
                if pr >= r {
                    assert(stack[stack.len() - 1] == stack.last());
                    assert(stack_known(stack.drop_last(), entries));
                    lemma_sy_pop_ge_counts(stack.drop_last(), r, entries);
                    let rest = sy_pop_ge(stack.drop_last(), r);
                    let em = seq![TokenV::Operator(op)] + rest.0;
                    assert forall|j: int| 0 <= j < em.len() implies (#[trigger] em[j])
                        is Operator by {
                        if j > 0 {
                            assert(em[j] == rest.0[j - 1]);
                        }
                    }
                    assert forall|j: int|
                        0 <= j < em.len() implies ((#[trigger] em[j]) matches TokenV::Operator(o)
                        ==> spec_lookup(entries, o) is Some) by {
                        if j > 0 {
                            assert(em[j] == rest.0[j - 1]);
                        }
                    }
                }
            },
            SyEntry::Paren => {},
        }
    }
}

/// What the parenthesis close emits and leaves, when an open parenthesis is
/// there: it removes the topmost parenthesis and the operators above it.
proof fn lemma_sy_close_counts(stack: Seq<SyEntry>, entries: Seq<(Op, u8)>)
    requires
        stack_known(stack, entries),
        n_parens(stack) > 0,
    ensures
        sy_close(stack) is Some,
        ({
            let res = sy_close(stack)->0;
            &&& res.0.len() <= n_ops(stack)
            &&& n_ops(res.1) == n_ops(stack) - res.0.len()
            &&& n_parens(res.1) == n_parens(stack) - 1
            &&& stack_known(res.1, entries)
            &&& forall|j: int| 0 <= j < res.0.len() ==> (#[trigger] res.0[j]) is Operator
            &&& ops_known(res.0, entries)
        }),
    decreases stack.len(),
{
    assert(stack.len() > 0);
    assert(stack[stack.len() - 1] == stack.last());
    assert(stack_known(stack.drop_last(), entries));
    lemma_counts_nonneg(stack);
    lemma_counts_nonneg(stack.drop_last());
    match stack.last() {
        SyEntry::Paren => {},
        SyEntry::Pending(op, pr) => {
            lemma_sy_close_counts(stack.drop_last(), entries);
            let rest = sy_close(stack.drop_last())->0;
            let em = seq![TokenV::Operator(op)] + rest.0;
            assert forall|j: int| 0 <= j < em.len() implies (#[trigger] em[j]) is Operator by {
                if j > 0 {
                    assert(em[j] == rest.0[j - 1]);
                }
            }
            assert forall|j: int|
                0 <= j < em.len() implies ((#[trigger] em[j]) matches TokenV::Operator(o)
                ==> spec_lookup(entries, o) is Some) by {
                if j > 0 {
                    assert(em[j] == rest.0[j - 1]);
                }
            }
        },
    }
}

/// What the final drain emits, when no parenthesis is left: every pending
/// operator, each with a table entry.
proof fn lemma_sy_drain_counts(stack: Seq<SyEntry>, entries: Seq<(Op, u8)>)
    requires
        stack_known(stack, entries),
        n_parens(stack) == 0,
    ensures
        sy_drain(stack) is Some,
        ({
            let em = sy_drain(stack)->0;
            &&& em.len() == n_ops(stack)
            &&& forall|j: int| 0 <= j < em.len() ==> (#[trigger] em[j]) is Operator
            &&& ops_known(em, entries)
        }),
    decreases stack.len(),
{
    if stack.len() > 0 {
        assert(stack[stack.len() - 1] == stack.last());
        assert(stack_known(stack.drop_last(), entries));
        lemma_counts_nonneg(stack.drop_last());
        match stack.last() {
            SyEntry::Paren => {
                assert(n_parens(stack) > 0);
            },
            SyEntry::Pending(op, pr) => {
                lemma_sy_drain_counts(stack.drop_last(), entries);
                let rest = sy_drain(stack.drop_last())->0;
                let em = seq![TokenV::Operator(op)] + rest;
                assert forall|j: int| 0 <= j < em.len() implies (#[trigger] em[j]) is Operator by {
                    if j > 0 {
                        assert(em[j] == rest[j - 1]);
                    }
                }
                assert forall|j: int|
                    0 <= j < em.len() implies ((#[trigger] em[j]) matches TokenV::Operator(o)
                    ==> spec_lookup(entries, o) is Some) by {
                    if j > 0 {
                        assert(em[j] == rest[j - 1]);
                    }
                }
            },
        }
    }
}

/// A statement is valid infix from position `i` in the given parser state:
/// `expecting` is whether an operand must come next, and `depth` counts the
/// open parentheses.  Operands and operators must alternate, every operator
/// must have a table entry, and parentheses must balance around nonempty
/// groups.
pub open spec fn infix_ok_from(
    ts: Seq<TokenV>,
    i: int,
    expecting: bool,
    depth: int,
    entries: Seq<(Op, u8)>,
) -> bool
    decreases ts.len() - i,
{
    if !(0 <= i <= ts.len()) {
        false
    } else if i == ts.len() {
        !expecting && depth == 0
    } else if expecting {
        match ts[i] {
            TokenV::Number(_) => infix_ok_from(ts, i + 1, false, depth, entries),
            TokenV::Symbol(_) => infix_ok_from(ts, i + 1, false, depth, entries),
            TokenV::LeftParen => infix_ok_from(ts, i + 1, true, depth + 1, entries),
            _ => false,
        }
    } else {
        match ts[i] {
            TokenV::Operator(op) => spec_lookup(entries, op) is Some && infix_ok_from(
                ts,
                i + 1,
                true,
                depth,
                entries,
            ),
            TokenV::RightParen => depth > 0 && infix_ok_from(ts, i + 1, false, depth - 1, entries),
            _ => false,
        }
    }
}

/// A valid infix statement: operands and known operators alternate, and
/// parentheses balance around nonempty groups.
pub open spec fn valid_infix(ts: Seq<TokenV>, entries: Seq<(Op, u8)>) -> bool {
    infix_ok_from(ts, 0, true, 0, entries)
}

/// The shunting-yard invariant, carried from position `i` to the end of a
/// valid infix statement: the scan succeeds and its final output is in
/// evaluable shape with every operator known.
proof fn lemma_sy_valid_from(
    ts: Seq<TokenV>,
    i: int,
    expecting: bool,
    depth: int,
    entries: Seq<(Op, u8)>,
)
    requires
        0 <= i <= ts.len(),
        infix_ok_from(ts, i, expecting, depth, entries),
        sy_fold(ts, i, entries) is Ok,
        ({
            let st = sy_fold(ts, i, entries)->Ok_0;
            &&& n_parens(st.0) == depth
            &&& stack_known(st.0, entries)
            &&& shape_prefix(st.1)
            &&& ops_known(st.1, entries)
            &&& bal(st.1, st.1.len() as int) == (if expecting {
                0int
            } else {
                1int
            }) + n_ops(st.0)
        }),
    ensures
        spec_infix_to_postfix(ts, entries) is Ok,
        shape_ok(spec_infix_to_postfix(ts, entries)->Ok_0),
        ops_known(spec_infix_to_postfix(ts, entries)->Ok_0, entries),
    decreases ts.len() - i,
{
    let st = sy_fold(ts, i, entries)->Ok_0;
    if i == ts.len() {
        lemma_sy_drain_counts(st.0, entries);
        let em = sy_drain(st.0)->0;
        lemma_shape_append_ops(st.1, em);
        let out = st.1 + em;
        assert forall|j: int|
            0 <= j < out.len() implies ((#[trigger] out[j]) matches TokenV::Operator(o)
            ==> spec_lookup(entries, o) is Some) by {
            if j < st.1.len() {
                assert(out[j] == st.1[j]);
            } else {
                assert(out[j] == em[j - st.1.len()]);
            }
        }
    } else {
        let t = ts[i];
        if expecting {
            match t {
                TokenV::Number(_) => {
                    lemma_shape_push_operand(st.1, t);
                    assert(sy_fold(ts, i + 1, entries) == sy_step(st.0, st.1, t, entries));
                    lemma_sy_valid_from(ts, i + 1, false, depth, entries);
                },
                TokenV::Symbol(_) => {
                    lemma_shape_push_operand(st.1, t);
                    assert(sy_fold(ts, i + 1, entries) == sy_step(st.0, st.1, t, entries));
                    lemma_sy_valid_from(ts, i + 1, false, depth, entries);
                },
                TokenV::LeftParen => {
                    lemma_counts_push(st.0, SyEntry::Paren, entries);
                    assert(sy_fold(ts, i + 1, entries) == sy_step(st.0, st.1, t, entries));
                    lemma_sy_valid_from(ts, i + 1, true, depth + 1, entries);
                },
                _ => {
                    assert(false);
                },
            }
        } else {
            match t {
                TokenV::Operator(op) => {
                    let r = spec_lookup(entries, op)->0;
                    lemma_sy_pop_ge_counts(st.0, r, entries);
                    let res = sy_pop_ge(st.0, r);
                    lemma_shape_append_ops(st.1, res.0);
                    lemma_counts_push(res.1, SyEntry::Pending(op, r), entries);
                    let out2 = st.1 + res.0;
                    assert forall|j: int|
                        0 <= j < out2.len() implies ((#[trigger] out2[j])
                        matches TokenV::Operator(o) ==> spec_lookup(entries, o) is Some) by {
                        if j < st.1.len() {
                            assert(out2[j] == st.1[j]);
                        } else {
                            assert(out2[j] == res.0[j - st.1.len()]);
                        }
                    }
                    assert(sy_fold(ts, i + 1, entries) == sy_step(st.0, st.1, t, entries));
                    lemma_sy_valid_from(ts, i + 1, true, depth, entries);
                },
                TokenV::RightParen => {
                    lemma_sy_close_counts(st.0, entries);
                    let res = sy_close(st.0)->0;
                    lemma_shape_append_ops(st.1, res.0);
                    let out2 = st.1 + res.0;
                    assert forall|j: int|
                        0 <= j < out2.len() implies ((#[trigger] out2[j])
                        matches TokenV::Operator(o) ==> spec_lookup(entries, o) is Some) by {
                        if j < st.1.len() {
                            assert(out2[j] == st.1[j]);
                        } else {
                            assert(out2[j] == res.0[j - st.1.len()]);
                        }
                    }
                    assert(sy_fold(ts, i + 1, entries) == sy_step(st.0, st.1, t, entries));
                    lemma_sy_valid_from(ts, i + 1, false, depth - 1, entries);
                },
                _ => {
                    assert(false);
                },
            }
        }
    }
}

/// For every valid infix statement, conversion to postfix succeeds, and
/// evaluating the converted sequence terminates with exactly one value on
/// the stack: it never underflows and never leaves extra operands, and can
/// fail only in the arithmetic itself or on an unresolved symbol.
pub proof fn lemma_valid_infix_evaluates(ts: Seq<TokenV>, entries: Seq<(Op, u8)>)
    requires
        valid_infix(ts, entries),
    ensures
        spec_infix_to_postfix(ts, entries) is Ok,
        spec_infix_to_postfix(ts, entries) matches Ok(out) ==> match spec_evaluate(out, entries) {
            Ok(_) => true,
            Err(e) => arithmetic_failure(e),
        },
        spec_infix_to_postfix(ts, entries) matches Ok(out) ==> (eval_fold(
            out,
            out.len() as int,
            entries,
        ) matches Ok(st) ==> st.len() == 1),
{
    let empty_stack = Seq::<SyEntry>::empty();
    let empty_out = Seq::<TokenV>::empty();
    assert(sy_fold(ts, 0, entries) == Ok::<(Seq<SyEntry>, Seq<TokenV>), MathError>(
        (empty_stack, empty_out),
    ));
    lemma_sy_valid_from(ts, 0, true, 0, entries);
    let out = spec_infix_to_postfix(ts, entries)->Ok_0;
    lemma_shape_eval(out, entries);
}

/// The same, stated over the raw statement: whenever a statement tokenizes
/// to valid infix, converting and evaluating it terminates with exactly one
/// value on the stack — no underflow and no leftover operands.
pub proof fn lemma_valid_infix_statement_evaluates(s: Seq<char>, entries: Seq<(Op, u8)>)
    requires
        valid_infix(spec_tokenize(s), entries),
    ensures
        spec_infix_to_postfix(spec_tokenize(s), entries) is Ok,
        spec_infix_to_postfix(spec_tokenize(s), entries) matches Ok(out) ==> match spec_evaluate(
            out,
            entries,
        ) {
            Ok(_) => true,
            Err(e) => arithmetic_failure(e),
        },
        spec_infix_to_postfix(spec_tokenize(s), entries) matches Ok(out) ==> (eval_fold(
            out,
            out.len() as int,
            entries,
        ) matches Ok(st) ==> st.len() == 1),
{
    lemma_valid_infix_evaluates(spec_tokenize(s), entries);
}


/// The tokenizer's state after running `j` characters of `s` from an
/// arbitrary starting state.
pub open spec fn tok_run(st: TokState, s: Seq<char>, j: int) -> TokState
    decreases j,
{
    if j <= 0 {
        st
    } else {
        tok_step(tok_run(st, s, j - 1), s[j - 1])
    }
}

/// The starting state of the tokenizer: nothing read, no open run.
pub open spec fn tok_init() -> TokState {
    TokState { done: Seq::<TokenV>::empty(), cur: Option::<Seq<char>>::None }
}

/// A run reads only the characters it is given.
proof fn lemma_tok_run_agree(st: TokState, a: Seq<char>, b: Seq<char>, j: int)
    requires
        0 <= j <= a.len(),
        j <= b.len(),
        forall|i: int| 0 <= i < j ==> a[i] == b[i],
    ensures
        tok_run(st, a, j) == tok_run(st, b, j),
    decreases j,
{
    if j > 0 {
        lemma_tok_run_agree(st, a, b, j - 1);
    }
}

/// The tokenizer from its starting state is the run of the whole statement.
proof fn lemma_tok_fold_is_run(s: Seq<char>, n: int)
    requires
        0 <= n <= s.len(),
    ensures
        tok_fold(s, n) == tok_run(tok_init(), s, n),
    decreases n,
{
    if n > 0 {
        lemma_tok_fold_is_run(s, n - 1);
    }
}

/// Running a concatenation is running the parts one after the other.
proof fn lemma_tok_run_split(st: TokState, a: Seq<char>, b: Seq<char>)
    ensures
        tok_run(st, a + b, a.len() as int + b.len() as int) == tok_run(tok_run(st, a, a.len() as int), b, b.len() as int),
    decreases b.len(),
{
    if b.len() == 0 {
        assert(a + b =~= a);
    } else {
        let b1 = b.drop_last();
        lemma_tok_run_split(st, a, b1);
        assert(a + b1 =~= (a + b).take(a.len() as int + b1.len() as int));
        lemma_tok_run_agree(st, a + b1, a + b, a.len() as int + b1.len() as int);
        let sa = tok_run(st, a, a.len() as int);
        lemma_tok_run_agree(sa, b1, b, b1.len() as int);
        assert((a + b)[a.len() + b.len() - 1] == b[b.len() - 1]);
    }
}

/// Running a word run from a state with no open run opens and fills one
/// operand run, finishing no token.
proof fn lemma_tok_run_word(done: Seq<TokenV>, text: Seq<char>, k: int)
    requires
        1 <= k <= text.len(),
        forall|i: int| 0 <= i < text.len() ==> spec_word_char(#[trigger] text[i]),
    ensures
        tok_run(TokState { done, cur: Option::None }, text, k) == (TokState {
            done,
            cur: Option::Some(text.take(k)),
        }),
    decreases k,
{
    if k == 1 {
        assert(text.take(1) =~= seq![text[0]]);
    } else {
        lemma_tok_run_word(done, text, k - 1);
        assert(text.take(k) =~= text.take(k - 1).push(text[k - 1]));
    }
}

/// Running the text of one token in good shape, from a state with no open
/// run: an operand leaves its run open, any other token is finished at
/// once.
proof fn lemma_tok_run_token(done: Seq<TokenV>, t: TokenV)
    requires
        wf_token(t),
    ensures
        (t is Number || t is Symbol) ==> tok_run(
            TokState { done, cur: Option::None },
            spec_token_text(t),
            spec_token_text(t).len() as int,
        ) == (TokState { done, cur: Option::Some(spec_token_text(t)) }),
        !(t is Number || t is Symbol) ==> tok_run(
            TokState { done, cur: Option::None },
            spec_token_text(t),
            spec_token_text(t).len() as int,
        ) == (TokState { done: done.push(t), cur: Option::<Seq<char>>::None }),
{
    reveal_with_fuel(tok_run, 3);
    let text = spec_token_text(t);
    match t {
        TokenV::Number(s) => {
            assert(forall|i: int| 0 <= i < s.len() ==> spec_word_char(#[trigger] s[i]));
            lemma_tok_run_word(done, text, text.len() as int);
            assert(text.take(text.len() as int) =~= text);
        },
        TokenV::Symbol(s) => {
            lemma_tok_run_word(done, text, text.len() as int);
            assert(text.take(text.len() as int) =~= text);
        },
        TokenV::Operator(op) => {
            assert(text == seq![spec_op_char(op)]);
            assert(text[0] == spec_op_char(op));
            match op {
                Op::Add => {
                    assert(!spec_word_char('+') && spec_operator_char('+'));
                    assert(spec_op_of_char('+') == Op::Add);
                },
                Op::Sub => {
                    assert(!spec_word_char('-') && spec_operator_char('-'));
                    assert(spec_op_of_char('-') == Op::Sub);
                },
                Op::Mul => {
                    assert(!spec_word_char('*') && spec_operator_char('*'));
                    assert(spec_op_of_char('*') == Op::Mul);
                },
                Op::Div => {
                    assert(!spec_word_char('/') && spec_operator_char('/'));
                    assert(spec_op_of_char('/') == Op::Div);
                },
                Op::Pow => {
                    assert(!spec_word_char('^') && spec_operator_char('^'));
                    assert(spec_op_of_char('^') == Op::Pow);
                },
            }
        },
        TokenV::LeftParen => {
            assert(text[0] == '(');
            assert(!spec_word_char('(') && !spec_operator_char('('));
        },
        TokenV::RightParen => {
            assert(text[0] == ')');
            assert(!spec_word_char(')') && !spec_operator_char(')'));
        },
    }
}

/// Closing the open run reproduces the token it was read from, for tokens
/// in good shape.
proof fn lemma_flush_classifies(done: Seq<TokenV>, t: TokenV)
    requires
        wf_token(t),
        t is Number || t is Symbol,
    ensures
        tok_flush(TokState { done, cur: Option::Some(spec_token_text(t)) }) == (TokState {
            done: done.push(t),
            cur: Option::<Seq<char>>::None,
        }),
{
}

/// Running the rendered text of a token sequence in good shape: every token
/// but possibly the last is finished, and an operand last token is left as
/// the open run.
proof fn lemma_render_run(ts: Seq<TokenV>)
    requires
        wf_tokens(ts),
        ts.len() > 0,
    ensures
        (ts.last() is Number || ts.last() is Symbol) ==> tok_run(
            tok_init(),
            spec_render(ts),
            spec_render(ts).len() as int,
        ) == (TokState { done: ts.drop_last(), cur: Option::Some(spec_token_text(ts.last())) }),
        !(ts.last() is Number || ts.last() is Symbol) ==> tok_run(
            tok_init(),
            spec_render(ts),
            spec_render(ts).len() as int,
        ) == (TokState { done: ts, cur: Option::<Seq<char>>::None }),
    decreases ts.len(),
{
    let r = spec_render(ts);
    let last = ts.last();
    let text = spec_token_text(last);
    if ts.len() == 1 {
        lemma_tok_run_token(Seq::<TokenV>::empty(), last);
        if last is Number || last is Symbol {
            assert(ts.drop_last() =~= Seq::<TokenV>::empty());
        } else {
            assert(Seq::<TokenV>::empty().push(last) =~= ts);
        }
    } else {
        let pre = ts.drop_last();
        assert forall|i: int| 0 <= i < pre.len() implies wf_token(#[trigger] pre[i]) by {
            assert(pre[i] == ts[i]);
        }
        lemma_render_run(pre);
        let a = spec_render(pre);
        let sp = seq![' '];
        let b = sp + text;
        assert(r =~= a + b);
        lemma_tok_run_split(tok_init(), a, b);
        let sa = tok_run(tok_init(), a, a.len() as int);
        let flushed = TokState { done: pre, cur: Option::<Seq<char>>::None };
        if pre.last() is Number || pre.last() is Symbol {
            lemma_flush_classifies(pre.drop_last(), pre.last());
            assert(pre.drop_last().push(pre.last()) =~= pre);
            assert(tok_flush(sa) =~~= flushed);
        } else {
            assert(tok_flush(sa) == flushed);
        }
        lemma_tok_run_split(sa, sp, text);
        reveal_with_fuel(tok_run, 3);
        assert(sp[0] == ' ');
        assert(tok_run(sa, sp, 1) == tok_step(sa, ' '));
        assert(!spec_word_char(' '));
        assert(tok_step(sa, ' ') == tok_flush(sa));
        lemma_tok_run_token(pre, last);
        assert(tok_run(tok_init(), r, r.len() as int) == tok_run(
            flushed,
            text,
            text.len() as int,
        ));
    }
}

/// Once evaluation succeeds, the sequence either ends in an operator or is
/// one single number: a longer sequence ending in an operand would leave
/// more than one value on the stack.
proof fn lemma_eval_ok_shape(ts: Seq<TokenV>, entries: Seq<(Op, u8)>)
    requires
        spec_evaluate(ts, entries) is Ok,
    ensures
        ts.len() > 0,
        ts.last() is Operator || (ts.len() == 1 && ts[0] is Number),
{
    let n = ts.len() as int;
    assert(n > 0);
    let st = eval_fold(ts, n, entries)->Ok_0;
    let prev = eval_fold(ts, n - 1, entries)->Ok_0;
    assert(st.len() == 1);
    match ts[n - 1] {
        TokenV::Number(_) => {
            assert(prev.len() == 0);
            if n >= 2 {
                let prev2 = eval_fold(ts, n - 2, entries)->Ok_0;
                lemma_eval_step_min(prev2, ts[n - 2], entries);
            }
        },
        TokenV::Symbol(_) => {
            assert(prev.len() == 0);
            if n >= 2 {
                let prev2 = eval_fold(ts, n - 2, entries)->Ok_0;
                lemma_eval_step_min(prev2, ts[n - 2], entries);
            }
            assert(st[0] is Sym);
            assert(false);
        },
        TokenV::Operator(_) => {},
        TokenV::LeftParen => {
            assert(false);
        },
        TokenV::RightParen => {
            assert(false);
        },
    }
}

/// A successful evaluation step leaves at least one value on the stack.
proof fn lemma_eval_step_min(st0: Seq<ItemV>, t: TokenV, entries: Seq<(Op, u8)>)
    ensures
        eval_step(st0, t, entries) matches Ok(st1) ==> st1.len() >= 1,
{
}

/// Converting a single operand as infix hands it back unchanged.
proof fn lemma_single_operand_infix(t: TokenV, entries: Seq<(Op, u8)>)
    requires
        t is Number || t is Symbol,
    ensures
        spec_infix_to_postfix(seq![t], entries) == Ok::<Seq<TokenV>, MathError>(seq![t]),
{
    let ts = seq![t];
    let empty_stack = Seq::<SyEntry>::empty();
    let empty_out = Seq::<TokenV>::empty();
    assert(sy_fold(ts, 0, entries) == Ok::<(Seq<SyEntry>, Seq<TokenV>), MathError>(
        (empty_stack, empty_out),
    ));
    assert(sy_fold(ts, 1, entries) == sy_step(empty_stack, empty_out, t, entries));
    assert(sy_drain(empty_stack) == Some(Seq::<TokenV>::empty()));
    assert(empty_out.push(t) + Seq::<TokenV>::empty() =~= ts);
}

/// The tokenizer reads the rendered display text of a token sequence in
/// good shape back to exactly that sequence.
pub proof fn lemma_tokenize_render(ts: Seq<TokenV>)
    requires
        wf_tokens(ts),
        ts.len() > 0,
    ensures
        spec_tokenize(spec_render(ts)) == ts,
{
    let r = spec_render(ts);
    lemma_render_run(ts);
    lemma_tok_fold_is_run(r, r.len() as int);
    if ts.last() is Number || ts.last() is Symbol {
        lemma_flush_classifies(ts.drop_last(), ts.last());
        assert(ts.drop_last().push(ts.last()) =~= ts);
    }
}

/// Round trip: re-tokenizing and re-evaluating the postfix display
/// string returned by a successful solve yields the very same numeric
/// result and the very same display string.
pub proof fn lemma_round_trip(s: Seq<char>, entries: Seq<(Op, u8)>)
    requires
        spec_solve(s, entries) is Ok,
    ensures
        spec_solve(s, entries) matches Ok(p) ==> spec_solve(p.1, entries) == spec_solve(s, entries),
{
    let p = spec_solve(s, entries)->Ok_0;
    let ts = spec_tokenize(s);
    lemma_tokenize_wf(s);
    assert(ts.len() > 0);
    let ps = if spec_classify(ts) is Postfix {
        ts
    } else if spec_classify(ts) is Prefix {
        spec_prefix_to_postfix(ts)->Ok_0
    } else {
        spec_infix_to_postfix(ts, entries)->Ok_0
    };
    if spec_classify(ts) is Postfix {
    } else if spec_classify(ts) is Prefix {
        lemma_prefix_wf(ts);
    } else {
        lemma_infix_wf(ts, entries);
    }
    assert(wf_tokens(ps));
    assert(spec_evaluate(ps, entries) is Ok);
    assert(p.1 == spec_render(ps));
    lemma_eval_ok_shape(ps, entries);
    lemma_tokenize_render(ps);
    assert(spec_tokenize(p.1) == ps);
    if ps.last() is Operator {
        assert(spec_classify(ps) == Notation::Postfix);
    } else {
        assert(ps.len() == 1 && ps[0] is Number);
        assert(spec_classify(ps) == Notation::Infix);
        lemma_single_operand_infix(ps[0], entries);
        assert(seq![ps[0]] =~= ps);
    }
    assert(spec_solve(p.1, entries) == spec_solve(s, entries));
}

} // verus!
