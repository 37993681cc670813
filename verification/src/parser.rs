//! The tokenizer: turns a raw statement string into an ordered sequence of
//! tokens, dropping irrelevant characters.
//!
//! A contiguous run of word characters (alphanumeric or underscore)
//! coalesces into one operand token; it becomes a [`Token::Number`] when it
//! is a digit run and a [`Token::Symbol`] otherwise.  A parenthesis or an
//! operator character is its own single-character token and terminates any
//! open operand run.  Every other character is dropped and also terminates
//! an open run.  Every input string yields a (possibly empty) token
//! sequence; there is no failure path here.

use vstd::prelude::*;

use crate::table::Op;
use crate::table::spec_op_char;

verus! {

/// A word character: an ASCII letter, an ASCII digit, or an underscore.
pub open spec fn spec_word_char(c: char) -> bool {
    ||| ('a' as u32) <= (c as u32) && (c as u32) <= ('z' as u32)
    ||| ('A' as u32) <= (c as u32) && (c as u32) <= ('Z' as u32)
    ||| ('0' as u32) <= (c as u32) && (c as u32) <= ('9' as u32)
    ||| c == '_'
}

/// An ASCII digit.
pub open spec fn spec_digit(c: char) -> bool {
    ('0' as u32) <= (c as u32) && (c as u32) <= ('9' as u32)
}

/// A character that writes one of the recognized operators.
pub open spec fn spec_operator_char(c: char) -> bool {
    c == '+' || c == '-' || c == '*' || c == '/' || c == '^'
}

/// A parenthesis character.
pub open spec fn spec_paren_char(c: char) -> bool {
    c == '(' || c == ')'
}

/// The operator written by an operator character.
pub open spec fn spec_op_of_char(c: char) -> Op
    recommends
        spec_operator_char(c),
{
    if c == '+' {
        Op::Add
    } else if c == '-' {
        Op::Sub
    } else if c == '*' {
        Op::Mul
    } else if c == '/' {
        Op::Div
    } else {
        Op::Pow
    }
}

/// A nonempty text of digits only: the shape of a number literal.
pub open spec fn is_digit_run(s: Seq<char>) -> bool {
    s.len() > 0 && (forall|i: int| 0 <= i < s.len() ==> spec_digit(#[trigger] s[i]))
}

/// Whether the text holds at least one word character.
pub open spec fn contains_word_char(s: Seq<char>) -> bool {
    exists|i: int| 0 <= i < s.len() && spec_word_char(#[trigger] s[i])
}

/// A nonempty text of word characters only: the shape of an operand run.
pub open spec fn is_word_run(s: Seq<char>) -> bool {
    s.len() > 0 && (forall|i: int| 0 <= i < s.len() ==> spec_word_char(#[trigger] s[i]))
}

/// The mathematical shape of a token: what a [`Token`] looks like in
/// contracts.
#[verifier::ext_equal]
pub enum TokenV {
    Number(Seq<char>),
    Symbol(Seq<char>),
    Operator(Op),
    LeftParen,
    RightParen,
}

/// One token of a statement.  Operand tokens carry their exact source
/// substring; operator and parenthesis tokens are determined by their single
/// character.
#[derive(Debug)]
pub enum Token {
    /// A digit run, an operand with a numeric value.
    Number(String),
    /// A word run that is not a digit run: an identifier, an operand with no
    /// bound value.
    Symbol(String),
    /// One of the recognized operators.
    Operator(Op),
    LeftParen,
    RightParen,
}

impl View for Token {
    type V = TokenV;

    open spec fn view(&self) -> TokenV {
        match self {
            Token::Number(s) => TokenV::Number(s@),
            Token::Symbol(s) => TokenV::Symbol(s@),
            Token::Operator(op) => TokenV::Operator(*op),
            Token::LeftParen => TokenV::LeftParen,
            Token::RightParen => TokenV::RightParen,
        }
    }
}

impl Token {
    /// A copy of the token, with the same view.
    pub fn duplicate(&self) -> (r: Token)
        ensures
            r@ == self@,
    {
        match self {
            Token::Number(s) => Token::Number(s.clone()),
            Token::Symbol(s) => Token::Symbol(s.clone()),
            Token::Operator(op) => Token::Operator(*op),
            Token::LeftParen => Token::LeftParen,
            Token::RightParen => Token::RightParen,
        }
    }
}

/// The views of a token sequence.
pub open spec fn token_views(ts: Seq<Token>) -> Seq<TokenV> {
    ts.map(|i: int, t: Token| t@)
}

/// The exact source text of a token.
pub open spec fn spec_token_text(t: TokenV) -> Seq<char> {
    match t {
        TokenV::Number(s) => s,
        TokenV::Symbol(s) => s,
        TokenV::Operator(op) => seq![spec_op_char(op)],
        TokenV::LeftParen => seq!['('],
        TokenV::RightParen => seq![')'],
    }
}

/// The texts of a token sequence.
pub open spec fn token_texts(ts: Seq<TokenV>) -> Seq<Seq<char>> {
    ts.map(|i: int, t: TokenV| spec_token_text(t))
}

/// The tokenizer's state after some characters: the finished tokens, and the
/// text of the currently open operand run, if one is open.
#[verifier::ext_equal]
pub struct TokState {
    pub done: Seq<TokenV>,
    pub cur: Option<Seq<char>>,
}

/// How a finished operand run is classified: a number when it is a digit
/// run, a symbol otherwise.
pub open spec fn classify_run(text: Seq<char>) -> TokenV {
    if is_digit_run(text) {
        TokenV::Number(text)
    } else {
        TokenV::Symbol(text)
    }
}

/// Closes the open operand run, if any, appending its token.
pub open spec fn tok_flush(st: TokState) -> TokState {
    match st.cur {
        Option::None => st,
        Option::Some(text) => TokState {
            done: st.done.push(classify_run(text)),
            cur: Option::None,
        },
    }
}

/// One character of tokenization.
pub open spec fn tok_step(st: TokState, c: char) -> TokState {
    if spec_word_char(c) {
        match st.cur {
            Option::None => TokState { done: st.done, cur: Option::Some(seq![c]) },
            Option::Some(text) => TokState { done: st.done, cur: Option::Some(text.push(c)) },
        }
    } else if spec_operator_char(c) {
        TokState {
            done: tok_flush(st).done.push(TokenV::Operator(spec_op_of_char(c))),
            cur: Option::None,
        }
    } else if c == '(' {
        TokState { done: tok_flush(st).done.push(TokenV::LeftParen), cur: Option::None }
    } else if c == ')' {
        TokState { done: tok_flush(st).done.push(TokenV::RightParen), cur: Option::None }
    } else {
        tok_flush(st)
    }
}

/// The tokenizer's state after the first `n` characters of `s`.
pub open spec fn tok_fold(s: Seq<char>, n: int) -> TokState
    decreases n,
{
    if n <= 0 {
        TokState { done: Seq::empty(), cur: Option::None }
    } else {
        tok_step(tok_fold(s, n - 1), s[n - 1])
    }
}

/// The token sequence of a statement.
pub open spec fn spec_tokenize(s: Seq<char>) -> Seq<TokenV> {
    tok_flush(tok_fold(s, s.len() as int)).done
}

/// A token in good shape: a number is a digit run, and a symbol is a word
/// run that is not a digit run.  The tokenizer only ever produces such
/// tokens.
pub open spec fn wf_token(t: TokenV) -> bool {
    match t {
        TokenV::Number(s) => is_digit_run(s),
        TokenV::Symbol(s) => is_word_run(s) && !is_digit_run(s),
        TokenV::Operator(_) => true,
        TokenV::LeftParen => true,
        TokenV::RightParen => true,
    }
}

/// Every token of the sequence is in good shape.
pub open spec fn wf_tokens(ts: Seq<TokenV>) -> bool {
    forall|i: int| 0 <= i < ts.len() ==> wf_token(#[trigger] ts[i])
}

proof fn lemma_tok_fold_wf(s: Seq<char>, n: int)
    requires
        0 <= n <= s.len(),
    ensures
        wf_tokens(tok_fold(s, n).done),
        tok_fold(s, n).cur matches Some(text) ==> is_word_run(text),
    decreases n,
{
    if n > 0 {
        lemma_tok_fold_wf(s, n - 1);
        let st = tok_fold(s, n - 1);
        let c = s[n - 1];
        if spec_word_char(c) {
            match st.cur {
                Option::None => {},
                Option::Some(text) => {
                    assert(forall|i: int|
                        0 <= i < text.push(c).len() ==> spec_word_char(#[trigger] text.push(c)[i]));
                },
            }
        } else {
            match st.cur {
                Option::None => {},
                Option::Some(text) => {
                    assert(wf_token(classify_run(text)));
                },
            }
        }
    }
}

/// The tokenizer only produces tokens in good shape.
pub proof fn lemma_tokenize_wf(s: Seq<char>)
    ensures
        wf_tokens(spec_tokenize(s)),
{
    lemma_tok_fold_wf(s, s.len() as int);
    let st = tok_fold(s, s.len() as int);
    match st.cur {
        Option::None => {},
        Option::Some(text) => {
            assert(wf_token(classify_run(text)));
        },
    }
}

/// Whether the character is a parenthesis.
pub fn is_parenthesis(token: char) -> (r: bool)
    ensures
        r == spec_paren_char(token),
{
    token == '(' || token == ')'
}

/// Whether the character writes one of the recognized operators.
pub fn is_operator(token: char) -> (r: bool)
    ensures
        r == spec_operator_char(token),
{
    token == '+' || token == '-' || token == '*' || token == '/' || token == '^'
}

/// Whether the character is a word character (alphanumeric or underscore),
/// so that it extends an operand run.
pub fn is_operand_character(token: char) -> (r: bool)
    ensures
        r == spec_word_char(token),
{
    let u: u32 = token as u32;
    (('a' as u32) <= u && u <= ('z' as u32)) || (('A' as u32) <= u && u <= ('Z' as u32)) || ((
    '0' as u32) <= u && u <= ('9' as u32)) || token == '_'
}

/// The operator written by an operator character.
pub fn op_of_char(c: char) -> (r: Op)
    requires
        spec_operator_char(c),
    ensures
        r == spec_op_of_char(c),
{
    if c == '+' {
        Op::Add
    } else if c == '-' {
        Op::Sub
    } else if c == '*' {
        Op::Mul
    } else if c == '/' {
        Op::Div
    } else {
        Op::Pow
    }
}

/// Whether the token text is a number literal: a nonempty run of digits.
pub fn is_operand_literal(token: String) -> (r: bool)
    ensures
        r == is_digit_run(token@),
{
    let s: &str = token.as_str();
    let n: usize = s.unicode_len();
    if n == 0 {
        return false;
    }
    let mut i: usize = 0;
    while i < n
        invariant
            i <= n,
            n == token@.len(),
            s@ == token@,
            forall|j: int| 0 <= j < i ==> spec_digit(#[trigger] token@[j]),
        decreases n - i,
    {
        let c: char = s.get_char(i);
        let u: u32 = c as u32;
        if !((('0' as u32) <= u) && (u <= ('9' as u32))) {
            return false;
        }
        i = i + 1;
    }
    true
}

/// Whether the token text holds at least one word character, so that it can
/// stand as a named operand.
pub fn is_operand_variable(token: String) -> (r: bool)
    ensures
        r == contains_word_char(token@),
{
    let s: &str = token.as_str();
    let n: usize = s.unicode_len();
    let mut i: usize = 0;
    while i < n
        invariant
            i <= n,
            n == token@.len(),
            s@ == token@,
            forall|j: int| 0 <= j < i ==> !spec_word_char(#[trigger] token@[j]),
        decreases n - i,
    {
        let c: char = s.get_char(i);
        if is_operand_character(c) {
            return true;
        }
        i = i + 1;
    }
    false
}

/// Whether the token text is an operand: a number literal or a named
/// operand.
pub fn is_operand(token: &String) -> (r: bool)
    ensures
        r == (is_digit_run(token@) || contains_word_char(token@)),
{
    is_operand_literal(token.clone()) || is_operand_variable(token.clone())
}

/// Turns a statement into its token sequence.
pub fn tokenize(statement: &str) -> (r: Vec<Token>)
    ensures
        token_views(r@) == spec_tokenize(statement@),
{
    let ghost s: Seq<char> = statement@;
    let n: usize = statement.unicode_len();
    let mut toks: Vec<Token> = Vec::new();
    let mut in_run: bool = false;
    let mut run_start: usize = 0;
    let mut i: usize = 0;
    while i < n
        invariant
            i <= n,
            n == s.len(),
            statement@ == s,
            token_views(toks@) == tok_fold(s, i as int).done,
            !in_run ==> tok_fold(s, i as int).cur is None,
            in_run ==> run_start < i && tok_fold(s, i as int).cur == Option::Some(
                s.subrange(run_start as int, i as int),
            ),
        decreases n - i,
    {
        let ghost st: TokState = tok_fold(s, i as int);
        let c: char = statement.get_char(i);
        if is_operand_character(c) {
            if !in_run {
                run_start = i;
                in_run = true;
                proof {
                    assert(s.subrange(i as int, i as int + 1) =~= seq![c]);
                }
            } else {
                proof {
                    assert(s.subrange(run_start as int, i as int + 1) =~= s.subrange(
                        run_start as int,
                        i as int,
                    ).push(c));
                }
            }
        } else {
            if in_run {
                let text: String = statement.substring_char(run_start, i).to_owned();
                let tok: Token = if is_operand_literal(text.clone()) {
                    Token::Number(text)
                } else {
                    Token::Symbol(text)
                };
                proof {
                    assert(tok@ == classify_run(st.cur->0));
                    assert(token_views(toks@.push(tok)) =~= token_views(toks@).push(tok@));
                }
                toks.push(tok);
                in_run = false;
            }
            let ghost flushed: TokState = tok_flush(st);
            if is_operator(c) {
                let op: Op = op_of_char(c);
                proof {
                    assert(token_views(toks@.push(Token::Operator(op))) =~= token_views(
                        toks@,
                    ).push(TokenV::Operator(op)));
                }
                toks.push(Token::Operator(op));
            } else if c == '(' {
                proof {
                    assert(token_views(toks@.push(Token::LeftParen)) =~= token_views(toks@).push(
                        TokenV::LeftParen,
                    ));
                }
                toks.push(Token::LeftParen);
            } else if c == ')' {
                proof {
                    assert(token_views(toks@.push(Token::RightParen)) =~= token_views(toks@).push(
                        TokenV::RightParen,
                    ));
                }
                toks.push(Token::RightParen);
            }
        }
        i = i + 1;
        proof {
            assert(tok_fold(s, i as int) == tok_step(st, s[i as int - 1]));
        }
    }
    if in_run {
        let text: String = statement.substring_char(run_start, n).to_owned();
        let tok: Token = if is_operand_literal(text.clone()) {
            Token::Number(text)
        } else {
            Token::Symbol(text)
        };
        proof {
            assert(token_views(toks@.push(tok)) =~= token_views(toks@).push(tok@));
        }
        toks.push(tok);
    }
    toks
}

/// The exact source text of a token, rebuilt as an owned string.
pub fn token_text(t: &Token) -> (r: String)
    ensures
        r@ == spec_token_text(t@),
{
    match t {
        Token::Number(s) => s.clone(),
        Token::Symbol(s) => s.clone(),
        Token::Operator(op) => op_text(*op),
        Token::LeftParen => {
            proof {
                reveal_strlit("(");
                assert("("@ =~= seq!['(']);
            }
            "(".to_owned()
        },
        Token::RightParen => {
            proof {
                reveal_strlit(")");
                assert(")"@ =~= seq![')']);
            }
            ")".to_owned()
        },
    }
}

/// The single-character text of an operator.
pub fn op_text(op: Op) -> (r: String)
    ensures
        r@ == seq![spec_op_char(op)],
{
    match op {
        Op::Add => {
            proof {
                reveal_strlit("+");
                assert("+"@ =~= seq!['+']);
            }
            "+".to_owned()
        },
        Op::Sub => {
            proof {
                reveal_strlit("-");
                assert("-"@ =~= seq!['-']);
            }
            "-".to_owned()
        },
        Op::Mul => {
            proof {
                reveal_strlit("*");
                assert("*"@ =~= seq!['*']);
            }
            "*".to_owned()
        },
        Op::Div => {
            proof {
                reveal_strlit("/");
                assert("/"@ =~= seq!['/']);
            }
            "/".to_owned()
        },
        Op::Pow => {
            proof {
                reveal_strlit("^");
                assert("^"@ =~= seq!['^']);
            }
            "^".to_owned()
        },
    }
}

/// Turns a statement into the raw texts of its tokens, in order.
pub fn parse(statement: String) -> (r: Vec<String>)
    ensures
        r@.map(|i: int, t: String| t@) == token_texts(spec_tokenize(statement@)),
{
    let toks: Vec<Token> = tokenize(statement.as_str());
    let n: usize = toks.len();
    let mut out: Vec<String> = Vec::new();
    let mut i: usize = 0;
    while i < n
        invariant
            i <= n,
            n == toks@.len(),
            token_views(toks@) == spec_tokenize(statement@),
            out@.len() == i,
            forall|j: int| 0 <= j < i ==> #[trigger] out@[j]@ == spec_token_text(toks@[j]@),
        decreases n - i,
    {
        let text: String = token_text(&toks[i]);
        out.push(text);
        i = i + 1;
    }
    proof {
        assert(out@.map(|k: int, t: String| t@) =~= token_texts(spec_tokenize(statement@)));
    }
    out
}

} // verus!
