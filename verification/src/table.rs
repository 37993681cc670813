//! The closed operator set and the precedence table.
//!
//! The table is an immutable configuration value, built once and passed by
//! reference into every converter and evaluator call.  Each entry maps an
//! operator to its precedence rank; in the default table the ranks are
//! strictly increasing in the order `+ - * / ^`.

use vstd::prelude::*;

verus! {

/// The closed set of recognized binary operators.
#[derive(Clone, Copy, PartialEq, Eq, Structural, Debug)]
pub enum Op {
    Add,
    Sub,
    Mul,
    Div,
    Pow,
}

/// The single character that writes each operator.
pub open spec fn spec_op_char(op: Op) -> char {
    match op {
        Op::Add => '+',
        Op::Sub => '-',
        Op::Mul => '*',
        Op::Div => '/',
        Op::Pow => '^',
    }
}

/// First-match lookup of an operator's rank among the table entries.
pub open spec fn spec_lookup(entries: Seq<(Op, u8)>, op: Op) -> Option<u8>
    decreases entries.len(),
{
    if entries.len() == 0 {
        None
    } else if entries[0].0 == op {
        Some(entries[0].1)
    } else {
        spec_lookup(entries.drop_first(), op)
    }
}

/// The entries of the default table: every recognized operator, with ranks
/// strictly increasing in the listed order `+ - * / ^`.
pub open spec fn spec_default_entries() -> Seq<(Op, u8)> {
    seq![(Op::Add, 1u8), (Op::Sub, 2u8), (Op::Mul, 3u8), (Op::Div, 4u8), (Op::Pow, 5u8)]
}

/// A mapping from operator to precedence rank.  An operator without an entry
/// is unknown to the converters and the evaluator, and statements using it
/// are rejected rather than given a default rank.
pub struct OperatorTable {
    pub entries: Vec<(Op, u8)>,
}

impl OperatorTable {
    /// The rank this table gives an operator, if it has an entry for it.
    pub open spec fn spec_rank(&self, op: Op) -> Option<u8> {
        spec_lookup(self.entries@, op)
    }

    /// Builds the default table.
    pub fn new() -> (r: OperatorTable)
        ensures
            r.entries@ == spec_default_entries(),
    {
        let mut entries: Vec<(Op, u8)> = Vec::new();
        entries.push((Op::Add, 1u8));
        entries.push((Op::Sub, 2u8));
        entries.push((Op::Mul, 3u8));
        entries.push((Op::Div, 4u8));
        entries.push((Op::Pow, 5u8));
        proof {
            assert(entries@ =~= spec_default_entries());
        }
        OperatorTable { entries }
    }

    /// Looks up an operator's rank, first entry wins.
    pub fn rank(&self, op: Op) -> (r: Option<u8>)
        ensures
            r == self.spec_rank(op),
    {
        let n: usize = self.entries.len();
        let mut i: usize = 0;
        proof {
            assert(self.entries@.skip(0) =~= self.entries@);
        }
        while i < n
            invariant
                i <= n,
                n == self.entries@.len(),
                spec_lookup(self.entries@, op) == spec_lookup(self.entries@.skip(i as int), op),
            decreases n - i,
        {
            let (entry_op, entry_rank): (Op, u8) = self.entries[i];
            proof {
                assert(self.entries@.skip(i as int)[0] == self.entries@[i as int]);
                assert(self.entries@.skip(i as int).drop_first() =~= self.entries@.skip(
                    i as int + 1,
                ));
            }
            if entry_op == op {
                return Some(entry_rank);
            }
            i = i + 1;
        }
        proof {
            assert(self.entries@.skip(n as int) =~= Seq::<(Op, u8)>::empty());
        }
        None
    }
}

/// The rank of an operator, written as its token text, in the default table;
/// `0` for text that is not a recognized operator.
pub fn priority(operator: &str) -> (r: u8)
    ensures
        r == spec_priority(operator@),
{
    if operator.unicode_len() != 1 {
        return 0;
    }
    let c: char = operator.get_char(0);
    if c == '+' {
        1
    } else if c == '-' {
        2
    } else if c == '*' {
        3
    } else if c == '/' {
        4
    } else if c == '^' {
        5
    } else {
        0
    }
}

/// The default rank of an operator written as text: strictly increasing over
/// `+ - * / ^`, and `0` for anything else.
pub open spec fn spec_priority(s: Seq<char>) -> u8 {
    if s =~= seq!['+'] {
        1u8
    } else if s =~= seq!['-'] {
        2u8
    } else if s =~= seq!['*'] {
        3u8
    } else if s =~= seq!['/'] {
        4u8
    } else if s =~= seq!['^'] {
        5u8
    } else {
        0u8
    }
}

} // verus!
