//! Notation detection, conversion to postfix form, and evaluation.
//!
//! The classifier reads only the boundary tokens of a statement: a sequence
//! ending in an operator is postfix, one starting with an operator is
//! prefix, and everything else is infix by default.  The two converters
//! rewrite prefix and infix statements into the canonical postfix form; the
//! evaluator is a stack machine over that form.

use vstd::prelude::*;

use crate::errors::MathError;
use crate::parser::Token;
use crate::parser::TokenV;
use crate::parser::lemma_tokenize_wf;
use crate::parser::spec_token_text;
use crate::parser::spec_tokenize;
use crate::parser::token_text;
use crate::parser::token_views;
use crate::parser::tokenize;
use crate::parser::wf_token;
use crate::parser::wf_tokens;
use crate::table::Op;
use crate::table::OperatorTable;
use crate::table::spec_lookup;
use crate::value::Rat;
use crate::value::Value;
use crate::value::apply_op;
use crate::value::number_value;
use crate::value::rat_wf;
use crate::value::result_matches;
use crate::value::spec_apply_op;
use crate::value::spec_number_value;

verus! {

/// The three notation families a statement can be written in.
#[derive(Clone, Copy, PartialEq, Eq, Structural, Debug)]
pub enum Notation {
    Postfix,
    Prefix,
    Infix,
}

/// The classifier's policy, in its fixed priority order: last token an
/// operator means postfix, else first token an operator means prefix, else
/// infix.  An empty or single-operand sequence falls through to infix.
pub open spec fn spec_classify(ts: Seq<TokenV>) -> Notation {
    if ts.len() > 0 && ts.last() is Operator {
        Notation::Postfix
    } else if ts.len() > 0 && ts.first() is Operator {
        Notation::Prefix
    } else {
        Notation::Infix
    }
}

/// Whether the statement reads as postfix: its last token is an operator.
pub fn is_postfix(tokens: &Vec<Token>) -> (r: bool)
    ensures
        r == (tokens@.len() > 0 && token_views(tokens@).last() is Operator),
{
    if tokens.len() == 0 {
        return false;
    }
    match &tokens[tokens.len() - 1] {
        Token::Operator(_) => true,
        _ => false,
    }
}

/// Whether the statement reads as prefix: its first token is an operator.
pub fn is_prefix(tokens: &Vec<Token>) -> (r: bool)
    ensures
        r == (tokens@.len() > 0 && token_views(tokens@).first() is Operator),
{
    if tokens.len() == 0 {
        return false;
    }
    match &tokens[0] {
        Token::Operator(_) => true,
        _ => false,
    }
}

/// Decides the notation family of a token sequence, by the fixed priority
/// order: postfix first, then prefix, then infix by default.
pub fn classify(tokens: &Vec<Token>) -> (r: Notation)
    ensures
        r == spec_classify(token_views(tokens@)),
{
    if is_postfix(tokens) {
        Notation::Postfix
    } else if is_prefix(tokens) {
        Notation::Prefix
    } else {
        Notation::Infix
    }
}

/// One item on the converter's operator side-stack: a pending operator with
/// its rank, or an open parenthesis.
#[derive(Clone, Copy, PartialEq, Eq, Structural, Debug)]
pub enum SyEntry {
    Pending(Op, u8),
    Paren,
}

/// Pops every stack-top operator whose rank is at least `r`: the tokens it
/// emits, in pop order, and the stack that remains.
pub open spec fn sy_pop_ge(stack: Seq<SyEntry>, r: u8) -> (Seq<TokenV>, Seq<SyEntry>)
    decreases stack.len(),
{
    if stack.len() == 0 {
        (Seq::<TokenV>::empty(), stack)
    } else {
        match stack.last() {
            SyEntry::Pending(op, pr) => if pr >= r {
                let rest = sy_pop_ge(stack.drop_last(), r);
                (seq![TokenV::Operator(op)] + rest.0, rest.1)
            } else {
                (Seq::<TokenV>::empty(), stack)
            },
            SyEntry::Paren => (Seq::<TokenV>::empty(), stack),
        }
    }
}

/// Pops operators down to the matching open parenthesis, discarding it:
/// the tokens emitted, in pop order, and the stack that remains; `None`
/// when no open parenthesis is on the stack.
pub open spec fn sy_close(stack: Seq<SyEntry>) -> Option<(Seq<TokenV>, Seq<SyEntry>)>
    decreases stack.len(),
{
    if stack.len() == 0 {
        None
    } else {
        match stack.last() {
            SyEntry::Paren => Some((Seq::<TokenV>::empty(), stack.drop_last())),
            SyEntry::Pending(op, pr) => match sy_close(stack.drop_last()) {
                None => None,
                Some(rest) => Some((seq![TokenV::Operator(op)] + rest.0, rest.1)),
            },
        }
    }
}

/// Pops the whole stack at the end of the scan, in stack order; `None` when
/// an unmatched open parenthesis is left.
pub open spec fn sy_drain(stack: Seq<SyEntry>) -> Option<Seq<TokenV>>
    decreases stack.len(),
{
    if stack.len() == 0 {
        Some(Seq::<TokenV>::empty())
    } else {
        match stack.last() {
            SyEntry::Paren => None,
            SyEntry::Pending(op, pr) => match sy_drain(stack.drop_last()) {
                None => None,
                Some(rest) => Some(seq![TokenV::Operator(op)] + rest),
            },
        }
    }
}

/// One token of the shunting-yard scan: operands go to the output, a left
/// parenthesis is stacked, a right parenthesis closes down to its match,
/// and an operator first pops every stacked operator of rank at least its
/// own, making every operator left-associative.
pub open spec fn sy_step(
    stack: Seq<SyEntry>,
    out: Seq<TokenV>,
    t: TokenV,
    entries: Seq<(Op, u8)>,
) -> Result<(Seq<SyEntry>, Seq<TokenV>), MathError> {
    match t {
        TokenV::Number(_) => Ok((stack, out.push(t))),
        TokenV::Symbol(_) => Ok((stack, out.push(t))),
        TokenV::LeftParen => Ok((stack.push(SyEntry::Paren), out)),
        TokenV::RightParen => match sy_close(stack) {
            None => Err(MathError::UnbalancedParentheses),
            Some(res) => Ok((res.1, out + res.0)),
        },
        TokenV::Operator(op) => match spec_lookup(entries, op) {
            None => Err(MathError::UnknownOperator),
            Some(r) => {
                let res = sy_pop_ge(stack, r);
                Ok((res.1.push(SyEntry::Pending(op, r)), out + res.0))
            },
        },
    }
}

/// The shunting-yard state after the first `n` tokens.
pub open spec fn sy_fold(ts: Seq<TokenV>, n: int, entries: Seq<(Op, u8)>) -> Result<
    (Seq<SyEntry>, Seq<TokenV>),
    MathError,
>
    decreases n,
{
    if n <= 0 {
        Ok((Seq::<SyEntry>::empty(), Seq::<TokenV>::empty()))
    } else {
        match sy_fold(ts, n - 1, entries) {
            Err(e) => Err(e),
            Ok(st) => sy_step(st.0, st.1, ts[n - 1], entries),
        }
    }
}

/// What the infix converter produces: the full scan, then the drained
/// operator stack appended to the output.
pub open spec fn spec_infix_to_postfix(ts: Seq<TokenV>, entries: Seq<(Op, u8)>) -> Result<
    Seq<TokenV>,
    MathError,
> {
    match sy_fold(ts, ts.len() as int, entries) {
        Err(e) => Err(e),
        Ok(st) => match sy_drain(st.0) {
            None => Err(MathError::UnbalancedParentheses),
            Some(em) => Ok(st.1 + em),
        },
    }
}

/// Whether an executable conversion result agrees, case by case, with a
/// specified one.
pub open spec fn conv_matches(r: Result<Vec<Token>, MathError>, s: Result<
    Seq<TokenV>,
    MathError,
>) -> bool {
    match (r, s) {
        (Ok(v), Ok(q)) => token_views(v@) == q,
        (Err(a), Err(b)) => a == b,
        _ => false,
    }
}

/// A scan that has failed stays failed however far it is carried.
proof fn lemma_sy_fold_err(ts: Seq<TokenV>, k: int, m: int, entries: Seq<(Op, u8)>)
    requires
        0 <= k <= m,
        sy_fold(ts, k, entries) is Err,
    ensures
        sy_fold(ts, m, entries) == sy_fold(ts, k, entries),
    decreases m - k,
{
    if m > k {
        lemma_sy_fold_err(ts, k, m - 1, entries);
    }
}

/// Whether the stack's top is a pending operator of rank at least `rk`.
fn top_qualifies(stack: &Vec<SyEntry>, rk: u8) -> (r: bool)
    ensures
        r == (stack@.len() > 0 && (stack@.last() matches SyEntry::Pending(op, pr) && pr >= rk)),
{
    if stack.len() == 0 {
        return false;
    }
    match stack[stack.len() - 1] {
        SyEntry::Pending(_, pr) => pr >= rk,
        SyEntry::Paren => false,
    }
}

/// Pops every stack-top operator of rank at least `rk` into the output.
#[verifier::loop_isolation(false)]
fn pop_ge(stack: &mut Vec<SyEntry>, out: &mut Vec<Token>, rk: u8)
    ensures
        final(stack)@ == sy_pop_ge(old(stack)@, rk).1,
        token_views(final(out)@) == token_views(old(out)@) + sy_pop_ge(old(stack)@, rk).0,
{
    let ghost pre_stack: Seq<SyEntry> = stack@;
    let ghost pre_out: Seq<TokenV> = token_views(out@);
    let ghost mut emitted: Seq<TokenV> = Seq::<TokenV>::empty();
    proof {
        assert(pre_out + emitted =~= pre_out);
        assert(emitted + sy_pop_ge(stack@, rk).0 =~= sy_pop_ge(stack@, rk).0);
    }
    while top_qualifies(stack, rk)
        invariant
            token_views(out@) == pre_out + emitted,
            sy_pop_ge(pre_stack, rk).1 == sy_pop_ge(stack@, rk).1,
            sy_pop_ge(pre_stack, rk).0 == emitted + sy_pop_ge(stack@, rk).0,
        decreases stack@.len(),
    {
        let ghost cur = stack@;
        if let Some(SyEntry::Pending(op, pr)) = stack.pop() {
            proof {
                assert(cur.last() == SyEntry::Pending(op, pr));
                assert(stack@ =~= cur.drop_last());
                assert(emitted + (seq![TokenV::Operator(op)] + sy_pop_ge(stack@, rk).0)
                    =~= (emitted + seq![TokenV::Operator(op)]) + sy_pop_ge(stack@, rk).0);
                assert(token_views(out@.push(Token::Operator(op))) =~= token_views(out@).push(
                    TokenV::Operator(op),
                ));
                assert((pre_out + emitted).push(TokenV::Operator(op)) =~= pre_out + (emitted
                    + seq![TokenV::Operator(op)]));
            }
            out.push(Token::Operator(op));
            proof {
                emitted = emitted + seq![TokenV::Operator(op)];
            }
        } else {
            proof {
                assert(false);
            }
        }
    }
    proof {
        assert(sy_pop_ge(stack@, rk).0 =~= Seq::<TokenV>::empty());
        assert(sy_pop_ge(stack@, rk).1 =~= stack@);
        assert(emitted + Seq::<TokenV>::empty() =~= emitted);
    }
}

/// Pops operators into the output down to the matching open parenthesis,
/// discarding it; reports whether one was found.
#[verifier::loop_isolation(false)]
fn close_paren(stack: &mut Vec<SyEntry>, out: &mut Vec<Token>) -> (r: bool)
    ensures
        r == (sy_close(old(stack)@) is Some),
        sy_close(old(stack)@) matches Some(res) ==> final(stack)@ == res.1 && token_views(
            final(out)@,
        ) == token_views(old(out)@) + res.0,
{
    let ghost pre_stack: Seq<SyEntry> = stack@;
    let ghost pre_out: Seq<TokenV> = token_views(out@);
    let ghost mut emitted: Seq<TokenV> = Seq::<TokenV>::empty();
    proof {
        assert(pre_out + emitted =~= pre_out);
        if let Some(res) = sy_close(stack@) {
            assert(emitted + res.0 =~= res.0);
        }
    }
    while stack.len() > 0
        invariant
            token_views(out@) == pre_out + emitted,
            (sy_close(pre_stack) is Some) == (sy_close(stack@) is Some),
            sy_close(stack@) matches Some(res) ==> sy_close(pre_stack) == Some(
                (emitted + res.0, res.1),
            ),
        decreases stack@.len(),
    {
        let ghost cur = stack@;
        match stack.pop() {
            Some(SyEntry::Paren) => {
                proof {
                    assert(cur.last() == SyEntry::Paren);
                    assert(stack@ =~= cur.drop_last());
                    assert(sy_close(cur) == Some((Seq::<TokenV>::empty(), cur.drop_last())));
                    assert(emitted + Seq::<TokenV>::empty() =~= emitted);
                    assert(sy_close(pre_stack) == Some((emitted, stack@)));
                }
                return true;
            },
            Some(SyEntry::Pending(op, pr)) => {
                proof {
                    assert(cur.last() == SyEntry::Pending(op, pr));
                    assert(stack@ =~= cur.drop_last());
                    if let Some(res) = sy_close(stack@) {
                        assert(sy_close(cur) == Some(
                            (seq![TokenV::Operator(op)] + res.0, res.1),
                        ));
                        assert(emitted + (seq![TokenV::Operator(op)] + res.0) =~= (emitted
                            + seq![TokenV::Operator(op)]) + res.0);
                    }
                    assert(token_views(out@.push(Token::Operator(op))) =~= token_views(out@).push(
                        TokenV::Operator(op),
                    ));
                    assert((pre_out + emitted).push(TokenV::Operator(op)) =~= pre_out + (emitted
                        + seq![TokenV::Operator(op)]));
                }
                out.push(Token::Operator(op));
                proof {
                    emitted = emitted + seq![TokenV::Operator(op)];
                }
            },
            None => {
                proof {
                    assert(false);
                }
            },
        }
    }
    false
}

/// Drains the whole stack into the output at the end of the scan; reports
/// `false` when an unmatched open parenthesis is left.
#[verifier::loop_isolation(false)]
fn drain_stack(stack: &mut Vec<SyEntry>, out: &mut Vec<Token>) -> (r: bool)
    ensures
        r == (sy_drain(old(stack)@) is Some),
        sy_drain(old(stack)@) matches Some(em) ==> token_views(final(out)@) == token_views(
            old(out)@,
        ) + em,
{
    let ghost pre_stack: Seq<SyEntry> = stack@;
    let ghost pre_out: Seq<TokenV> = token_views(out@);
    let ghost mut emitted: Seq<TokenV> = Seq::<TokenV>::empty();
    proof {
        assert(pre_out + emitted =~= pre_out);
        if let Some(em) = sy_drain(stack@) {
            assert(emitted + em =~= em);
        }
    }
    while stack.len() > 0
        invariant
            token_views(out@) == pre_out + emitted,
            (sy_drain(pre_stack) is Some) == (sy_drain(stack@) is Some),
            sy_drain(stack@) matches Some(em) ==> sy_drain(pre_stack) == Some(emitted + em),
        decreases stack@.len(),
    {
        let ghost cur = stack@;
        match stack.pop() {
            Some(SyEntry::Paren) => {
                proof {
                    assert(cur.last() == SyEntry::Paren);
                    assert(sy_drain(cur) is None);
                    assert(sy_drain(pre_stack) is None);
                }
                return false;
            },
            Some(SyEntry::Pending(op, pr)) => {
                proof {
                    assert(cur.last() == SyEntry::Pending(op, pr));
                    assert(stack@ =~= cur.drop_last());
                    if let Some(em) = sy_drain(stack@) {
                        assert(sy_drain(cur) == Some(seq![TokenV::Operator(op)] + em));
                        assert(emitted + (seq![TokenV::Operator(op)] + em) =~= (emitted
                            + seq![TokenV::Operator(op)]) + em);
                    }
                    assert(token_views(out@.push(Token::Operator(op))) =~= token_views(out@).push(
                        TokenV::Operator(op),
                    ));
                    assert((pre_out + emitted).push(TokenV::Operator(op)) =~= pre_out + (emitted
                        + seq![TokenV::Operator(op)]));
                }
                out.push(Token::Operator(op));
                proof {
                    emitted = emitted + seq![TokenV::Operator(op)];
                }
            },
            None => {
                proof {
                    assert(false);
                }
            },
        }
    }
    proof {
        assert(sy_drain(stack@) == Some(Seq::<TokenV>::empty()));
        assert(emitted + Seq::<TokenV>::empty() =~= emitted);
    }
    true
}

/// Converts an infix token sequence to postfix form by the shunting-yard
/// algorithm, using the table's precedence ranks.  The comparison pops
/// stacked operators of rank greater than or equal to the incoming rank,
/// which makes every operator left-associative, exponentiation included.
pub fn infix_to_postfix(tokens: &Vec<Token>, table: &OperatorTable) -> (r: Result<
    Vec<Token>,
    MathError,
>)
    ensures
        conv_matches(r, spec_infix_to_postfix(token_views(tokens@), table.entries@)),
{
    let ghost ts: Seq<TokenV> = token_views(tokens@);
    let ghost entries: Seq<(Op, u8)> = table.entries@;
    let n: usize = tokens.len();
    let mut out: Vec<Token> = Vec::new();
    let mut stack: Vec<SyEntry> = Vec::new();
    let mut i: usize = 0;
    proof {
        assert(token_views(out@) =~= Seq::<TokenV>::empty());
    }
    while i < n
        invariant
            i <= n,
            n == tokens@.len(),
            ts == token_views(tokens@),
            entries == table.entries@,
            sy_fold(ts, i as int, entries) == Ok::<(Seq<SyEntry>, Seq<TokenV>), MathError>(
                (stack@, token_views(out@)),
            ),
        decreases n - i,
    {
        let ghost pre_stack: Seq<SyEntry> = stack@;
        let ghost pre_out: Seq<TokenV> = token_views(out@);
        let t: &Token = &tokens[i];
        proof {
            assert(t@ == ts[i as int]);
        }
        match t {
            Token::Number(_) => {
                let dup: Token = t.duplicate();
                proof {
                    assert(token_views(out@.push(dup)) =~= token_views(out@).push(dup@));
                }
                out.push(dup);
            },
            Token::Symbol(_) => {
                let dup: Token = t.duplicate();
                proof {
                    assert(token_views(out@.push(dup)) =~= token_views(out@).push(dup@));
                }
                out.push(dup);
            },
            Token::LeftParen => {
                stack.push(SyEntry::Paren);
            },
            Token::RightParen => {
                let found: bool = close_paren(&mut stack, &mut out);
                if !found {
                    proof {
                        assert(sy_fold(ts, i as int + 1, entries) == Err::<
                            (Seq<SyEntry>, Seq<TokenV>),
                            MathError,
                        >(MathError::UnbalancedParentheses));
                        lemma_sy_fold_err(ts, i as int + 1, n as int, entries);
                    }
                    return Err(MathError::UnbalancedParentheses);
                }
            },
            Token::Operator(op) => {
                match table.rank(*op) {
                    None => {
                        proof {
                            assert(sy_fold(ts, i as int + 1, entries) == Err::<
                                (Seq<SyEntry>, Seq<TokenV>),
                                MathError,
                            >(MathError::UnknownOperator));
                            lemma_sy_fold_err(ts, i as int + 1, n as int, entries);
                        }
                        return Err(MathError::UnknownOperator);
                    },
                    Some(rk) => {
                        pop_ge(&mut stack, &mut out, rk);
                        stack.push(SyEntry::Pending(*op, rk));
                    },
                }
            },
        }
        i = i + 1;
        proof {
            assert(sy_fold(ts, i as int, entries) == sy_step(
                pre_stack,
                pre_out,
                ts[i as int - 1],
                entries,
            ));
        }
    }
    let ok: bool = drain_stack(&mut stack, &mut out);
    if !ok {
        return Err(MathError::UnbalancedParentheses);
    }
    Ok(out)
}

/// The views of a stack of token groups.
pub open spec fn group_views(s: Seq<Vec<Token>>) -> Seq<Seq<TokenV>> {
    s.map(|i: int, v: Vec<Token>| token_views(v@))
}

/// One token of the right-to-left prefix scan: an operand pushes its own
/// group, and an operator pops two groups `x` then `y` and pushes the
/// composite group `x y operator`.  A parenthesis has no place in prefix
/// form.
pub open spec fn pf_step(stack: Seq<Seq<TokenV>>, t: TokenV) -> Result<
    Seq<Seq<TokenV>>,
    MathError,
> {
    match t {
        TokenV::Number(_) => Ok(stack.push(seq![t])),
        TokenV::Symbol(_) => Ok(stack.push(seq![t])),
        TokenV::Operator(op) => if stack.len() < 2 {
            Err(MathError::StackUnderflow)
        } else {
            Ok(
                stack.drop_last().drop_last().push(
                    stack.last() + stack[stack.len() - 2] + seq![t],
                ),
            )
        },
        TokenV::LeftParen => Err(MathError::UnbalancedParentheses),
        TokenV::RightParen => Err(MathError::UnbalancedParentheses),
    }
}

/// The prefix scan's stack after the last `k` tokens, read right to left.
pub open spec fn pf_fold(ts: Seq<TokenV>, k: int) -> Result<Seq<Seq<TokenV>>, MathError>
    decreases k,
{
    if k <= 0 {
        Ok(Seq::<Seq<TokenV>>::empty())
    } else {
        match pf_fold(ts, k - 1) {
            Err(e) => Err(e),
            Ok(st) => pf_step(st, ts[ts.len() - k]),
        }
    }
}

/// What the prefix converter produces: after the full reverse scan exactly
/// one group must remain, the complete postfix sequence.
pub open spec fn spec_prefix_to_postfix(ts: Seq<TokenV>) -> Result<Seq<TokenV>, MathError> {
    match pf_fold(ts, ts.len() as int) {
        Err(e) => Err(e),
        Ok(st) => if st.len() == 1 {
            Ok(st[0])
        } else if st.len() == 0 {
            Err(MathError::StackUnderflow)
        } else {
            Err(MathError::LeftoverOperands)
        },
    }
}

/// A reverse scan that has failed stays failed however far it is carried.
proof fn lemma_pf_fold_err(ts: Seq<TokenV>, k: int, m: int)
    requires
        0 <= k <= m,
        pf_fold(ts, k) is Err,
    ensures
        pf_fold(ts, m) == pf_fold(ts, k),
    decreases m - k,
{
    if m > k {
        lemma_pf_fold_err(ts, k, m - 1);
    }
}

/// Converts a prefix token sequence to postfix form: tokens are read right
/// to left over one stack of groups, and each operator joins its two
/// operand groups into one postfix group.
#[verifier::loop_isolation(false)]
pub fn prefix_to_postfix(tokens: &Vec<Token>) -> (r: Result<Vec<Token>, MathError>)
    ensures
        conv_matches(r, spec_prefix_to_postfix(token_views(tokens@))),
{
    let ghost ts: Seq<TokenV> = token_views(tokens@);
    let n: usize = tokens.len();
    let mut stack: Vec<Vec<Token>> = Vec::new();
    let mut k: usize = 0;
    proof {
        assert(group_views(stack@) =~= Seq::<Seq<TokenV>>::empty());
    }
    while k < n
        invariant
            k <= n,
            pf_fold(ts, k as int) == Ok::<Seq<Seq<TokenV>>, MathError>(group_views(stack@)),
        decreases n - k,
    {
        let ghost pre: Seq<Seq<TokenV>> = group_views(stack@);
        let idx: usize = n - 1 - k;
        let t: &Token = &tokens[idx];
        proof {
            assert(t@ == ts[ts.len() - (k as int + 1)]);
        }
        match t {
            Token::LeftParen => {
                proof {
                    lemma_pf_fold_err(ts, k as int + 1, n as int);
                }
                return Err(MathError::UnbalancedParentheses);
            },
            Token::RightParen => {
                proof {
                    lemma_pf_fold_err(ts, k as int + 1, n as int);
                }
                return Err(MathError::UnbalancedParentheses);
            },
            Token::Operator(_) => {
                if stack.len() < 2 {
                    proof {
                        lemma_pf_fold_err(ts, k as int + 1, n as int);
                    }
                    return Err(MathError::StackUnderflow);
                }
                let ghost vs: Seq<Vec<Token>> = stack@;
                let mut x: Vec<Token> = match stack.pop() {
                    Some(v) => v,
                    None => {
                        proof {
                            assert(false);
                        }
                        Vec::new()
                    },
                };
                let mut y: Vec<Token> = match stack.pop() {
                    Some(v) => v,
                    None => {
                        proof {
                            assert(false);
                        }
                        Vec::new()
                    },
                };
                let ghost xv: Seq<TokenV> = token_views(x@);
                let ghost yv: Seq<TokenV> = token_views(y@);
                proof {
                    assert(xv == pre.last());
                    assert(yv == pre[pre.len() - 2]);
                    assert(group_views(stack@) =~= pre.drop_last().drop_last());
                }
                x.append(&mut y);
                let dup: Token = t.duplicate();
                x.push(dup);
                proof {
                    assert(token_views(x@) =~= xv + yv + seq![t@]);
                    assert(group_views(stack@.push(x)) =~= group_views(stack@).push(
                        token_views(x@),
                    ));
                }
                stack.push(x);
            },
            Token::Number(_) => {
                let mut single: Vec<Token> = Vec::new();
                single.push(t.duplicate());
                proof {
                    assert(token_views(single@) =~= seq![t@]);
                    assert(group_views(stack@.push(single)) =~= group_views(stack@).push(
                        token_views(single@),
                    ));
                }
                stack.push(single);
            },
            Token::Symbol(_) => {
                let mut single: Vec<Token> = Vec::new();
                single.push(t.duplicate());
                proof {
                    assert(token_views(single@) =~= seq![t@]);
                    assert(group_views(stack@.push(single)) =~= group_views(stack@).push(
                        token_views(single@),
                    ));
                }
                stack.push(single);
            },
        }
        k = k + 1;
        proof {
            assert(pf_fold(ts, k as int) == pf_step(pre, ts[ts.len() - k as int]));
        }
    }
    if stack.len() == 1 {
        let ghost fin: Seq<Seq<TokenV>> = group_views(stack@);
        let res: Vec<Token> = match stack.pop() {
            Some(v) => v,
            None => {
                proof {
                    assert(false);
                }
                Vec::new()
            },
        };
        proof {
            assert(token_views(res@) == fin[0]);
        }
        Ok(res)
    } else if stack.len() == 0 {
        Err(MathError::StackUnderflow)
    } else {
        Err(MathError::LeftoverOperands)
    }
}

/// The no-op converter for a statement already in postfix form: the same
/// token sequence, rebuilt for uniformity.
pub fn postfix_to_postfix(tokens: &Vec<Token>) -> (r: Vec<Token>)
    ensures
        token_views(r@) == token_views(tokens@),
{
    let n: usize = tokens.len();
    let mut out: Vec<Token> = Vec::new();
    let mut i: usize = 0;
    while i < n
        invariant
            i <= n,
            n == tokens@.len(),
            out@.len() == i,
            forall|j: int| 0 <= j < i ==> #[trigger] out@[j]@ == tokens@[j]@,
        decreases n - i,
    {
        let dup: Token = tokens[i].duplicate();
        out.push(dup);
        i = i + 1;
    }
    proof {
        assert(token_views(out@) =~= token_views(tokens@));
    }
    out
}

/// The mathematical shape of one entry on the evaluation stack: a resolved
/// number, or a symbol that no value is bound to.
#[verifier::ext_equal]
pub enum ItemV {
    Num(Rat),
    Sym(Seq<char>),
}

/// One entry on the evaluation stack.
#[derive(Debug)]
pub enum EvalItem {
    Num(Value),
    Sym(String),
}

impl View for EvalItem {
    type V = ItemV;

    open spec fn view(&self) -> ItemV {
        match self {
            EvalItem::Num(v) => ItemV::Num(v@),
            EvalItem::Sym(s) => ItemV::Sym(s@),
        }
    }
}

/// The views of an evaluation stack.
pub open spec fn item_views(s: Seq<EvalItem>) -> Seq<ItemV> {
    s.map(|i: int, it: EvalItem| it@)
}

/// One token of the postfix evaluation: a number pushes its value, a symbol
/// pushes itself unresolved, and an operator pops `y` then `x` and pushes
/// `x operator y`.  A parenthesis has no place in postfix form.
pub open spec fn eval_step(stack: Seq<ItemV>, t: TokenV, entries: Seq<(Op, u8)>) -> Result<
    Seq<ItemV>,
    MathError,
> {
    match t {
        TokenV::Number(text) => match spec_number_value(text) {
            Ok(q) => Ok(stack.push(ItemV::Num(q))),
            Err(e) => Err(e),
        },
        TokenV::Symbol(text) => Ok(stack.push(ItemV::Sym(text))),
        TokenV::LeftParen => Err(MathError::UnbalancedParentheses),
        TokenV::RightParen => Err(MathError::UnbalancedParentheses),
        TokenV::Operator(op) => if spec_lookup(entries, op) is None {
            Err(MathError::UnknownOperator)
        } else if stack.len() < 2 {
            Err(MathError::StackUnderflow)
        } else {
            match (stack[stack.len() - 2], stack.last()) {
                (ItemV::Num(a), ItemV::Num(b)) => match spec_apply_op(op, a, b) {
                    Ok(q) => Ok(stack.drop_last().drop_last().push(ItemV::Num(q))),
                    Err(e) => Err(e),
                },
                _ => Err(MathError::UnresolvedSymbol),
            }
        },
    }
}

/// The evaluation stack after the first `n` tokens.
pub open spec fn eval_fold(ts: Seq<TokenV>, n: int, entries: Seq<(Op, u8)>) -> Result<
    Seq<ItemV>,
    MathError,
>
    decreases n,
{
    if n <= 0 {
        Ok(Seq::<ItemV>::empty())
    } else {
        match eval_fold(ts, n - 1, entries) {
            Err(e) => Err(e),
            Ok(st) => eval_step(st, ts[n - 1], entries),
        }
    }
}

/// What evaluating a postfix sequence yields: after the full scan exactly
/// one value must remain, and it must be a resolved number.
pub open spec fn spec_evaluate(ts: Seq<TokenV>, entries: Seq<(Op, u8)>) -> Result<
    Rat,
    MathError,
> {
    match eval_fold(ts, ts.len() as int, entries) {
        Err(e) => Err(e),
        Ok(st) => if st.len() == 0 {
            Err(MathError::StackUnderflow)
        } else if st.len() > 1 {
            Err(MathError::LeftoverOperands)
        } else {
            match st[0] {
                ItemV::Num(q) => Ok(q),
                ItemV::Sym(_) => Err(MathError::UnresolvedSymbol),
            }
        },
    }
}

/// An evaluation that has failed stays failed however far it is carried.
proof fn lemma_eval_fold_err(ts: Seq<TokenV>, k: int, m: int, entries: Seq<(Op, u8)>)
    requires
        0 <= k <= m,
        eval_fold(ts, k, entries) is Err,
    ensures
        eval_fold(ts, m, entries) == eval_fold(ts, k, entries),
    decreases m - k,
{
    if m > k {
        lemma_eval_fold_err(ts, k, m - 1, entries);
    }
}

/// Evaluates a postfix token sequence to a single numeric value with a
/// two-symbol stack machine, using the table to tell known operators.
#[verifier::loop_isolation(false)]
pub fn evaluate(tokens: &Vec<Token>, table: &OperatorTable) -> (r: Result<Value, MathError>)
    requires
        wf_tokens(token_views(tokens@)),
    ensures
        result_matches(r, spec_evaluate(token_views(tokens@), table.entries@)),
        r matches Ok(v) ==> v.wf(),
{
    let ghost ts: Seq<TokenV> = token_views(tokens@);
    let ghost entries: Seq<(Op, u8)> = table.entries@;
    let n: usize = tokens.len();
    let mut items: Vec<EvalItem> = Vec::new();
    let mut i: usize = 0;
    proof {
        assert(item_views(items@) =~= Seq::<ItemV>::empty());
    }
    while i < n
        invariant
            i <= n,
            eval_fold(ts, i as int, entries) == Ok::<Seq<ItemV>, MathError>(item_views(items@)),
            forall|j: int|
                0 <= j < items@.len() ==> (#[trigger] items@[j]@ matches ItemV::Num(q)
                    ==> rat_wf(q)),
        decreases n - i,
    {
        let ghost pre: Seq<ItemV> = item_views(items@);
        let t: &Token = &tokens[i];
        proof {
            assert(t@ == ts[i as int]);
            assert(wf_token(ts[i as int]));
        }
        match t {
            Token::Number(text) => {
                match number_value(text.as_str()) {
                    Ok(v) => {
                        proof {
                            assert(item_views(items@.push(EvalItem::Num(v))) =~= item_views(
                                items@,
                            ).push(ItemV::Num(v@)));
                        }
                        items.push(EvalItem::Num(v));
                    },
                    Err(e) => {
                        proof {
                            lemma_eval_fold_err(ts, i as int + 1, n as int, entries);
                        }
                        return Err(e);
                    },
                }
            },
            Token::Symbol(text) => {
                let item: EvalItem = EvalItem::Sym(text.clone());
                proof {
                    assert(item_views(items@.push(item)) =~= item_views(items@).push(item@));
                }
                items.push(item);
            },
            Token::LeftParen => {
                proof {
                    lemma_eval_fold_err(ts, i as int + 1, n as int, entries);
                }
                return Err(MathError::UnbalancedParentheses);
            },
            Token::RightParen => {
                proof {
                    lemma_eval_fold_err(ts, i as int + 1, n as int, entries);
                }
                return Err(MathError::UnbalancedParentheses);
            },
            Token::Operator(op) => {
                match table.rank(*op) {
                    None => {
                        proof {
                            lemma_eval_fold_err(ts, i as int + 1, n as int, entries);
                        }
                        return Err(MathError::UnknownOperator);
                    },
                    Some(_) => {
                        if items.len() < 2 {
                            proof {
                                lemma_eval_fold_err(ts, i as int + 1, n as int, entries);
                            }
                            return Err(MathError::StackUnderflow);
                        }
                        let y_item: EvalItem = match items.pop() {
                            Some(it) => it,
                            None => {
                                proof {
                                    assert(false);
                                }
                                EvalItem::Num(Value { num: 0, den: 1 })
                            },
                        };
                        let x_item: EvalItem = match items.pop() {
                            Some(it) => it,
                            None => {
                                proof {
                                    assert(false);
                                }
                                EvalItem::Num(Value { num: 0, den: 1 })
                            },
                        };
                        proof {
                            assert(x_item@ == pre[pre.len() - 2]);
                            assert(y_item@ == pre.last());
                            assert(item_views(items@) =~= pre.drop_last().drop_last());
                        }
                        match (x_item, y_item) {
                            (EvalItem::Num(a), EvalItem::Num(b)) => {
                                match apply_op(*op, a, b) {
                                    Ok(v) => {
                                        proof {
                                            assert(item_views(items@.push(EvalItem::Num(v)))
                                                =~= item_views(items@).push(ItemV::Num(v@)));
                                        }
                                        items.push(EvalItem::Num(v));
                                    },
                                    Err(e) => {
                                        proof {
                                            lemma_eval_fold_err(ts, i as int + 1, n as int,
                                                entries);
                                        }
                                        return Err(e);
                                    },
                                }
                            },
                            _ => {
                                proof {
                                    lemma_eval_fold_err(ts, i as int + 1, n as int, entries);
                                }
                                return Err(MathError::UnresolvedSymbol);
                            },
                        }
                    },
                }
            },
        }
        i = i + 1;
        proof {
            assert(eval_fold(ts, i as int, entries) == eval_step(pre, ts[i as int - 1], entries));
        }
    }
    if items.len() == 0 {
        return Err(MathError::StackUnderflow);
    }
    if items.len() > 1 {
        return Err(MathError::LeftoverOperands);
    }
    let ghost fin: Seq<ItemV> = item_views(items@);
    match items.pop() {
        Some(EvalItem::Num(v)) => {
            proof {
                assert(fin[0] == ItemV::Num(v@));
            }
            Ok(v)
        },
        Some(EvalItem::Sym(_)) => Err(MathError::UnresolvedSymbol),
        None => {
            proof {
                assert(false);
            }
            Err(MathError::StackUnderflow)
        },
    }
}


/// Everything the rank-driven pop emits is an operator token.
proof fn lemma_sy_pop_ge_ops(stack: Seq<SyEntry>, r: u8)
    ensures
        forall|j: int|
            0 <= j < sy_pop_ge(stack, r).0.len() ==> (#[trigger] sy_pop_ge(stack, r).0[j])
                is Operator,
    decreases stack.len(),
{
    if stack.len() > 0 {
        match stack.last() {
            SyEntry::Pending(op, pr) => {
                if pr >= r {
                    lemma_sy_pop_ge_ops(stack.drop_last(), r);
                }
            },
            SyEntry::Paren => {},
        }
    }
}

/// Everything the parenthesis close emits is an operator token.
proof fn lemma_sy_close_ops(stack: Seq<SyEntry>)
    ensures
        sy_close(stack) matches Some(res) ==> forall|j: int|
            0 <= j < res.0.len() ==> (#[trigger] res.0[j]) is Operator,
    decreases stack.len(),
{
    if stack.len() > 0 {
        match stack.last() {
            SyEntry::Pending(op, pr) => {
                lemma_sy_close_ops(stack.drop_last());
            },
            SyEntry::Paren => {},
        }
    }
}

/// Everything the final drain emits is an operator token.
proof fn lemma_sy_drain_ops(stack: Seq<SyEntry>)
    ensures
        sy_drain(stack) matches Some(em) ==> forall|j: int|
            0 <= j < em.len() ==> (#[trigger] em[j]) is Operator,
    decreases stack.len(),
{
    if stack.len() > 0 {
        match stack.last() {
            SyEntry::Pending(op, pr) => {
                lemma_sy_drain_ops(stack.drop_last());
            },
            SyEntry::Paren => {},
        }
    }
}

/// A scan over tokens in good shape keeps its output in good shape.
proof fn lemma_sy_fold_wf(ts: Seq<TokenV>, n: int, entries: Seq<(Op, u8)>)
    requires
        wf_tokens(ts),
        0 <= n <= ts.len(),
        sy_fold(ts, n, entries) is Ok,
    ensures
        sy_fold(ts, n, entries) matches Ok(st) ==> wf_tokens(st.1),
    decreases n,
{
    if n > 0 {
        let prev = sy_fold(ts, n - 1, entries);
        lemma_sy_fold_wf(ts, n - 1, entries);
        if let Ok(st) = prev {
            let t = ts[n - 1];
            assert(wf_token(t));
            match t {
                TokenV::RightParen => {
                    lemma_sy_close_ops(st.0);
                },
                TokenV::Operator(op) => {
                    lemma_sy_pop_ge_ops(st.0, spec_lookup(entries, op)->0);
                },
                _ => {},
            }
        }
    }
}

/// The infix converter keeps tokens in good shape.
pub proof fn lemma_infix_wf(ts: Seq<TokenV>, entries: Seq<(Op, u8)>)
    requires
        wf_tokens(ts),
        spec_infix_to_postfix(ts, entries) is Ok,
    ensures
        spec_infix_to_postfix(ts, entries) matches Ok(out) ==> wf_tokens(out),
{
    lemma_sy_fold_wf(ts, ts.len() as int, entries);
    if let Ok(st) = sy_fold(ts, ts.len() as int, entries) {
        lemma_sy_drain_ops(st.0);
    }
}

/// A reverse scan over tokens in good shape keeps every group in good
/// shape.
proof fn lemma_pf_fold_wf(ts: Seq<TokenV>, k: int)
    requires
        wf_tokens(ts),
        0 <= k <= ts.len(),
        pf_fold(ts, k) is Ok,
    ensures
        pf_fold(ts, k) matches Ok(st) ==> forall|g: int|
            0 <= g < st.len() ==> wf_tokens(#[trigger] st[g]),
    decreases k,
{
    if k > 0 {
        let prev = pf_fold(ts, k - 1);
        lemma_pf_fold_wf(ts, k - 1);
        if let Ok(st) = prev {
            let t = ts[ts.len() - k];
            assert(wf_token(t));
        }
    }
}

/// The prefix converter keeps tokens in good shape.
pub proof fn lemma_prefix_wf(ts: Seq<TokenV>)
    requires
        wf_tokens(ts),
        spec_prefix_to_postfix(ts) is Ok,
    ensures
        spec_prefix_to_postfix(ts) matches Ok(out) ==> wf_tokens(out),
{
    lemma_pf_fold_wf(ts, ts.len() as int);
}

/// The display text of a postfix token sequence: the tokens' texts joined
/// by single spaces.
pub open spec fn spec_render(ts: Seq<TokenV>) -> Seq<char>
    decreases ts.len(),
{
    if ts.len() == 0 {
        Seq::<char>::empty()
    } else if ts.len() == 1 {
        spec_token_text(ts[0])
    } else {
        spec_render(ts.drop_last()) + seq![' '] + spec_token_text(ts.last())
    }
}

/// Renders a token sequence back to a whitespace-joined display string.
#[verifier::loop_isolation(false)]
pub fn stack_to_string(stack: &Vec<Token>) -> (r: String)
    ensures
        r@ == spec_render(token_views(stack@)),
{
    let ghost ts: Seq<TokenV> = token_views(stack@);
    let n: usize = stack.len();
    let mut out: String = String::new();
    let mut i: usize = 0;
    proof {
        assert(ts.take(0) =~= Seq::<TokenV>::empty());
    }
    while i < n
        invariant
            i <= n,
            out@ == spec_render(ts.take(i as int)),
        decreases n - i,
    {
        if i > 0 {
            proof {
                reveal_strlit(" ");
                assert(" "@ =~= seq![' ']);
            }
            out.append(" ");
        }
        let text: String = token_text(&stack[i]);
        proof {
            assert(text@ == spec_token_text(ts[i as int]));
        }
        out.append(text.as_str());
        i = i + 1;
        proof {
            let cur = ts.take(i as int);
            assert(cur.drop_last() =~= ts.take(i as int - 1));
            assert(cur.last() == ts[i as int - 1]);
            if i == 1 {
                assert(Seq::<char>::empty() + spec_token_text(ts[0]) =~= spec_token_text(ts[0]));
            }
        }
    }
    proof {
        assert(ts.take(n as int) =~= ts);
    }
    out
}

/// The output triple of one solved statement: the numeric result, the
/// untouched original statement, and the postfix display string.
#[derive(Debug)]
pub struct SolveResult {
    pub result: Value,
    pub statement: String,
    pub postfix: String,
}

/// What solving a statement yields: tokenize, classify, convert by the
/// selected converter, evaluate, and render the postfix form.
pub open spec fn spec_solve(s: Seq<char>, entries: Seq<(Op, u8)>) -> Result<
    (Rat, Seq<char>),
    MathError,
> {
    let ts = spec_tokenize(s);
    if ts.len() == 0 {
        Err(MathError::EmptyStatement)
    } else {
        let conv = if spec_classify(ts) is Postfix {
            Ok(ts)
        } else if spec_classify(ts) is Prefix {
            spec_prefix_to_postfix(ts)
        } else {
            spec_infix_to_postfix(ts, entries)
        };
        match conv {
            Err(e) => Err(e),
            Ok(ps) => match spec_evaluate(ps, entries) {
                Err(e) => Err(e),
                Ok(q) => Ok((q, spec_render(ps))),
            },
        }
    }
}

/// Whether an executable solve result agrees, case by case, with a
/// specified one, and echoes the statement.
pub open spec fn solve_matches(
    r: Result<SolveResult, MathError>,
    s: Result<(Rat, Seq<char>), MathError>,
    stmt: Seq<char>,
) -> bool {
    match (r, s) {
        (Ok(sr), Ok(p)) => sr.result@ == p.0 && rat_wf(p.0) && sr.postfix@ == p.1
            && sr.statement@ == stmt,
        (Err(a), Err(b)) => a == b,
        _ => false,
    }
}

/// Solves one statement: tokenizes it once, classifies it once, converts it
/// to postfix form with the selected converter, evaluates it, and returns
/// the result with the original statement and the postfix display string.
pub fn solve(statement: &String, table: &OperatorTable) -> (r: Result<SolveResult, MathError>)
    ensures
        solve_matches(r, spec_solve(statement@, table.entries@), statement@),
{
    let toks: Vec<Token> = tokenize(statement.as_str());
    proof {
        lemma_tokenize_wf(statement@);
    }
    if toks.len() == 0 {
        return Err(MathError::EmptyStatement);
    }
    let nt: Notation = classify(&toks);
    let ps: Vec<Token> = match nt {
        Notation::Postfix => postfix_to_postfix(&toks),
        Notation::Prefix => {
            match prefix_to_postfix(&toks) {
                Ok(v) => v,
                Err(e) => {
                    return Err(e);
                },
            }
        },
        Notation::Infix => {
            match infix_to_postfix(&toks, table) {
                Ok(v) => v,
                Err(e) => {
                    return Err(e);
                },
            }
        },
    };
    proof {
        let ts = token_views(toks@);
        match nt {
            Notation::Postfix => {},
            Notation::Prefix => {
                lemma_prefix_wf(ts);
            },
            Notation::Infix => {
                lemma_infix_wf(ts, table.entries@);
            },
        }
        assert(wf_tokens(token_views(ps@)));
    }
    let value: Value = match evaluate(&ps, table) {
        Ok(v) => v,
        Err(e) => {
            return Err(e);
        },
    };
    let postfix: String = stack_to_string(&ps);
    Ok(SolveResult { result: value, statement: statement.clone(), postfix })
}


/// One statement's variable environment: named operands with their bound
/// values.  The first binding of a name wins; later bindings of the same
/// name are ignored.
pub struct Bindings {
    pub entries: Vec<(String, Value)>,
}

/// The views of a binding list.
pub open spec fn binding_views(entries: Seq<(String, Value)>) -> Seq<(Seq<char>, Rat)> {
    entries.map(|i: int, e: (String, Value)| (e.0@, e.1@))
}

/// First-match lookup of a name among bindings.
pub open spec fn spec_lookup_binding(bs: Seq<(Seq<char>, Rat)>, name: Seq<char>) -> Option<Rat>
    decreases bs.len(),
{
    if bs.len() == 0 {
        None
    } else if bs[0].0 == name {
        Some(bs[0].1)
    } else {
        spec_lookup_binding(bs.drop_first(), name)
    }
}

impl Bindings {
    /// The mathematical content of the binding list.
    pub open spec fn spec_entries(&self) -> Seq<(Seq<char>, Rat)> {
        binding_views(self.entries@)
    }

    /// Well-formedness: every bound value is a well-formed rational.
    pub open spec fn wf(&self) -> bool {
        forall|i: int| 0 <= i < self.entries@.len() ==> rat_wf((#[trigger] self.entries@[i]).1@)
    }

    /// An empty environment: every symbol is unresolved.
    pub fn new() -> (r: Bindings)
        ensures
            r.spec_entries() == Seq::<(Seq<char>, Rat)>::empty(),
            r.wf(),
    {
        let entries: Vec<(String, Value)> = Vec::new();
        proof {
            assert(binding_views(entries@) =~= Seq::<(Seq<char>, Rat)>::empty());
        }
        Bindings { entries }
    }

    /// Adds one binding, behind any binding of the same name already made.
    pub fn bind(&mut self, name: String, value: Value)
        requires
            old(self).wf(),
            value.wf(),
        ensures
            final(self).spec_entries() == old(self).spec_entries().push((name@, value@)),
            final(self).wf(),
    {
        let ghost pre = self.entries@;
        self.entries.push((name, value));
        proof {
            assert(binding_views(self.entries@) =~= binding_views(pre).push(
                (self.entries@.last().0@, self.entries@.last().1@),
            ));
            assert forall|i: int| 0 <= i < self.entries@.len() implies rat_wf(
                (#[trigger] self.entries@[i]).1@,
            ) by {
                if i < pre.len() {
                    assert(self.entries@[i] == pre[i]);
                }
            }
        }
    }

    /// Looks a name up, first binding wins.
    pub fn lookup(&self, name: &String) -> (r: Option<Value>)
        requires
            self.wf(),
        ensures
            match r {
                Some(v) => spec_lookup_binding(self.spec_entries(), name@) == Some(v@) && v.wf(),
                None => spec_lookup_binding(self.spec_entries(), name@) is None,
            },
    {
        let n: usize = self.entries.len();
        let mut i: usize = 0;
        proof {
            assert(self.spec_entries().skip(0) =~= self.spec_entries());
        }
        while i < n
            invariant
                i <= n,
                n == self.entries@.len(),
                self.wf(),
                spec_lookup_binding(self.spec_entries(), name@) == spec_lookup_binding(
                    self.spec_entries().skip(i as int),
                    name@,
                ),
            decreases n - i,
        {
            let entry_name: &String = &self.entries[i].0;
            proof {
                assert(self.spec_entries()[i as int] == (
                    self.entries@[i as int].0@,
                    self.entries@[i as int].1@,
                ));
                assert(self.spec_entries().skip(i as int)[0] == self.spec_entries()[i as int]);
                assert(self.spec_entries().skip(i as int).drop_first() =~= self.spec_entries().skip(
                    i as int + 1,
                ));
            }
            if *entry_name == *name {
                return Some(self.entries[i].1);
            }
            i = i + 1;
        }
        proof {
            assert(self.spec_entries().skip(n as int) =~= Seq::<(Seq<char>, Rat)>::empty());
        }
        None
    }
}

/// One token of the bindings-aware postfix evaluation: as the strict mode,
/// except that a symbol with a bound value pushes that value resolved.
pub open spec fn eval_b_step(
    stack: Seq<ItemV>,
    t: TokenV,
    entries: Seq<(Op, u8)>,
    bs: Seq<(Seq<char>, Rat)>,
) -> Result<Seq<ItemV>, MathError> {
    match t {
        TokenV::Symbol(text) => match spec_lookup_binding(bs, text) {
            Some(q) => Ok(stack.push(ItemV::Num(q))),
            None => Ok(stack.push(ItemV::Sym(text))),
        },
        _ => eval_step(stack, t, entries),
    }
}

/// The bindings-aware evaluation stack after the first `n` tokens.
pub open spec fn eval_b_fold(
    ts: Seq<TokenV>,
    n: int,
    entries: Seq<(Op, u8)>,
    bs: Seq<(Seq<char>, Rat)>,
) -> Result<Seq<ItemV>, MathError>
    decreases n,
{
    if n <= 0 {
        Ok(Seq::<ItemV>::empty())
    } else {
        match eval_b_fold(ts, n - 1, entries, bs) {
            Err(e) => Err(e),
            Ok(st) => eval_b_step(st, ts[n - 1], entries, bs),
        }
    }
}

/// What the bindings-aware evaluation of a postfix sequence yields.
pub open spec fn spec_evaluate_with(
    ts: Seq<TokenV>,
    entries: Seq<(Op, u8)>,
    bs: Seq<(Seq<char>, Rat)>,
) -> Result<Rat, MathError> {
    match eval_b_fold(ts, ts.len() as int, entries, bs) {
        Err(e) => Err(e),
        Ok(st) => if st.len() == 0 {
            Err(MathError::StackUnderflow)
        } else if st.len() > 1 {
            Err(MathError::LeftoverOperands)
        } else {
            match st[0] {
                ItemV::Num(q) => Ok(q),
                ItemV::Sym(_) => Err(MathError::UnresolvedSymbol),
            }
        },
    }
}

/// A bindings-aware evaluation that has failed stays failed however far it
/// is carried.
proof fn lemma_eval_b_fold_err(
    ts: Seq<TokenV>,
    k: int,
    m: int,
    entries: Seq<(Op, u8)>,
    bs: Seq<(Seq<char>, Rat)>,
)
    requires
        0 <= k <= m,
        eval_b_fold(ts, k, entries, bs) is Err,
    ensures
        eval_b_fold(ts, m, entries, bs) == eval_b_fold(ts, k, entries, bs),
    decreases m - k,
{
    if m > k {
        lemma_eval_b_fold_err(ts, k, m - 1, entries, bs);
    }
}

/// With no bindings at all, the bindings-aware evaluation is exactly the
/// strict one: every symbol stays unresolved.
pub proof fn lemma_strict_mode_is_empty_bindings(ts: Seq<TokenV>, entries: Seq<(Op, u8)>)
    ensures
        spec_evaluate_with(ts, entries, Seq::<(Seq<char>, Rat)>::empty()) == spec_evaluate(
            ts,
            entries,
        ),
{
    lemma_eval_b_fold_empty(ts, ts.len() as int, entries);
}

/// The two evaluation folds agree step by step when no binding exists.
proof fn lemma_eval_b_fold_empty(ts: Seq<TokenV>, n: int, entries: Seq<(Op, u8)>)
    ensures
        eval_b_fold(ts, n, entries, Seq::<(Seq<char>, Rat)>::empty()) == eval_fold(
            ts,
            n,
            entries,
        ),
    decreases n,
{
    if n > 0 {
        lemma_eval_b_fold_empty(ts, n - 1, entries);
    }
}

/// Evaluates a postfix token sequence with a variable environment: a symbol
/// with a bound value resolves to it, and one without stays unresolved, as
/// in the strict mode.
#[verifier::loop_isolation(false)]
pub fn evaluate_with_bindings(
    tokens: &Vec<Token>,
    table: &OperatorTable,
    bindings: &Bindings,
) -> (r: Result<Value, MathError>)
    requires
        wf_tokens(token_views(tokens@)),
        bindings.wf(),
    ensures
        result_matches(
            r,
            spec_evaluate_with(token_views(tokens@), table.entries@, bindings.spec_entries()),
        ),
        r matches Ok(v) ==> v.wf(),
{
    let ghost ts: Seq<TokenV> = token_views(tokens@);
    let ghost entries: Seq<(Op, u8)> = table.entries@;
    let ghost bs: Seq<(Seq<char>, Rat)> = bindings.spec_entries();
    let n: usize = tokens.len();
    let mut items: Vec<EvalItem> = Vec::new();
    let mut i: usize = 0;
    proof {
        assert(item_views(items@) =~= Seq::<ItemV>::empty());
    }
    while i < n
        invariant
            i <= n,
            eval_b_fold(ts, i as int, entries, bs) == Ok::<Seq<ItemV>, MathError>(
                item_views(items@),
            ),
            forall|j: int|
                0 <= j < items@.len() ==> (#[trigger] items@[j]@ matches ItemV::Num(q)
                    ==> rat_wf(q)),
        decreases n - i,
    {
        let ghost pre: Seq<ItemV> = item_views(items@);
        let t: &Token = &tokens[i];
        proof {
            assert(t@ == ts[i as int]);
            assert(wf_token(ts[i as int]));
        }
        match t {
            Token::Number(text) => {
                match number_value(text.as_str()) {
                    Ok(v) => {
                        proof {
                            assert(item_views(items@.push(EvalItem::Num(v))) =~= item_views(
                                items@,
                            ).push(ItemV::Num(v@)));
                        }
                        items.push(EvalItem::Num(v));
                    },
                    Err(e) => {
                        proof {
                            lemma_eval_b_fold_err(ts, i as int + 1, n as int, entries, bs);
                        }
                        return Err(e);
                    },
                }
            },
            Token::Symbol(text) => {
                match bindings.lookup(text) {
                    Some(v) => {
                        proof {
                            assert(item_views(items@.push(EvalItem::Num(v))) =~= item_views(
                                items@,
                            ).push(ItemV::Num(v@)));
                        }
                        items.push(EvalItem::Num(v));
                    },
                    None => {
                        let item: EvalItem = EvalItem::Sym(text.clone());
                        proof {
                            assert(item_views(items@.push(item)) =~= item_views(items@).push(
                                item@,
                            ));
                        }
                        items.push(item);
                    },
                }
            },
            Token::LeftParen => {
                proof {
                    lemma_eval_b_fold_err(ts, i as int + 1, n as int, entries, bs);
                }
                return Err(MathError::UnbalancedParentheses);
            },
            Token::RightParen => {
                proof {
                    lemma_eval_b_fold_err(ts, i as int + 1, n as int, entries, bs);
                }
                return Err(MathError::UnbalancedParentheses);
            },
            Token::Operator(op) => {
                match table.rank(*op) {
                    None => {
                        proof {
                            lemma_eval_b_fold_err(ts, i as int + 1, n as int, entries, bs);
                        }
                        return Err(MathError::UnknownOperator);
                    },
                    Some(_) => {
                        if items.len() < 2 {
                            proof {
                                lemma_eval_b_fold_err(ts, i as int + 1, n as int, entries, bs);
                            }
                            return Err(MathError::StackUnderflow);
                        }
                        let y_item: EvalItem = match items.pop() {
                            Some(it) => it,
                            None => {
                                proof {
                                    assert(false);
                                }
                                EvalItem::Num(Value { num: 0, den: 1 })
                            },
                        };
                        let x_item: EvalItem = match items.pop() {
                            Some(it) => it,
                            None => {
                                proof {
                                    assert(false);
                                }
                                EvalItem::Num(Value { num: 0, den: 1 })
                            },
                        };
                        proof {
                            assert(x_item@ == pre[pre.len() - 2]);
                            assert(y_item@ == pre.last());
                            assert(item_views(items@) =~= pre.drop_last().drop_last());
                        }
                        match (x_item, y_item) {
                            (EvalItem::Num(a), EvalItem::Num(b)) => {
                                match apply_op(*op, a, b) {
                                    Ok(v) => {
                                        proof {
                                            assert(item_views(items@.push(EvalItem::Num(v)))
                                                =~= item_views(items@).push(ItemV::Num(v@)));
                                        }
                                        items.push(EvalItem::Num(v));
                                    },
                                    Err(e) => {
                                        proof {
                                            lemma_eval_b_fold_err(ts, i as int + 1, n as int,
                                                entries, bs);
                                        }
                                        return Err(e);
                                    },
                                }
                            },
                            _ => {
                                proof {
                                    lemma_eval_b_fold_err(ts, i as int + 1, n as int, entries, bs);
                                }
                                return Err(MathError::UnresolvedSymbol);
                            },
                        }
                    },
                }
            },
        }
        i = i + 1;
        proof {
            assert(eval_b_fold(ts, i as int, entries, bs) == eval_b_step(
                pre,
                ts[i as int - 1],
                entries,
                bs,
            ));
        }
    }
    if items.len() == 0 {
        return Err(MathError::StackUnderflow);
    }
    if items.len() > 1 {
        return Err(MathError::LeftoverOperands);
    }
    let ghost fin: Seq<ItemV> = item_views(items@);
    match items.pop() {
        Some(EvalItem::Num(v)) => {
            proof {
                assert(fin[0] == ItemV::Num(v@));
            }
            Ok(v)
        },
        Some(EvalItem::Sym(_)) => Err(MathError::UnresolvedSymbol),
        None => {
            proof {
                assert(false);
            }
            Err(MathError::StackUnderflow)
        },
    }
}

} // verus!
