//! Arithmetic expressions over integers, variables and dice rolls, such as `2d6 + power * 3`.
//!
//! An expression is a sum of products of primaries: integers, variables (names of letters,
//! digits and underscores, not starting with a digit) and rolls (`NdM`: the sum of `N` rolls of
//! an `M`-sided die). Products bind tighter than sums; both group to the left. Spaces and tabs
//! may stand between the parts.

use rand::Rng;
use vstd::prelude::*;
use vstd::string::*;

verus! {

pub type Integer = i64;

/// A primary of an expression.
#[derive(Clone, Copy, Debug, PartialEq, Eq, Structural)]
pub enum Prim {
    Integer(Integer),
    /// The variable spelt by the characters `start..end` of the source.
    Variable(usize, usize),
    /// The sum of `amount` rolls of a die with `die` sides.
    Roll(Integer, Integer),
}

/// An arithmetic operator.
#[derive(Clone, Copy, Debug, PartialEq, Eq, Structural)]
pub enum OpKind {
    Add,
    Sub,
    Mul,
    Div,
}

/// Where the lexer stands.
#[derive(Clone, Copy, Debug, PartialEq, Eq, Structural)]
pub enum LexState {
    /// A primary is expected.
    Start,
    /// Within the digits of an integer.
    Digits { value: Integer },
    /// After the `d` of a roll.
    Die { amount: Integer },
    /// Within the digits of a roll's die.
    DieDigits { amount: Integer, value: Integer },
    /// Within a variable's name, which started at `start`.
    Name { start: usize },
    /// After a primary: an operator, or the end, is expected.
    Operator,
}

pub open spec fn is_digit(c: char) -> bool {
    '0' <= c <= '9'
}

pub open spec fn is_name_start(c: char) -> bool {
    ('a' <= c <= 'z') || ('A' <= c <= 'Z') || c == '_'
}

pub open spec fn is_name_char(c: char) -> bool {
    is_name_start(c) || is_digit(c)
}

pub open spec fn is_space(c: char) -> bool {
    c == ' ' || c == '\t'
}

pub open spec fn op_of(c: char) -> Option<OpKind> {
    if c == '+' {
        Some(OpKind::Add)
    } else if c == '-' {
        Some(OpKind::Sub)
    } else if c == '*' {
        Some(OpKind::Mul)
    } else if c == '/' {
        Some(OpKind::Div)
    } else {
        None
    }
}

pub open spec fn digit_value(c: char) -> int {
    c as u32 - '0' as u32
}

/// One more digit of a number, unless it would leave the range of an `Integer`.
pub open spec fn push_digit(value: Integer, c: char) -> Option<Integer> {
    if value * 10 + digit_value(c) <= i64::MAX {
        Some((value * 10 + digit_value(c)) as Integer)
    } else {
        None
    }
}

/// What follows a primary at `c`: more space, an operator, or nothing that can.
pub open spec fn after_primary(prims: Seq<Prim>, ops: Seq<OpKind>, p: Prim, c: char) -> Option<(LexState, Seq<Prim>, Seq<OpKind>)> {
    if is_space(c) {
        Some((LexState::Operator, prims.push(p), ops))
    } else if op_of(c) is Some {
        Some((LexState::Start, prims.push(p), ops.push(op_of(c)->0)))
    } else {
        None
    }
}

/// The lexer after reading the character at `i`; `None` where the source cannot be an expression.
pub open spec fn lex_step(s: Seq<char>, i: int, st: LexState, prims: Seq<Prim>, ops: Seq<OpKind>) -> Option<(LexState, Seq<Prim>, Seq<OpKind>)> {
    let c = s[i];
    match st {
        LexState::Start => if is_space(c) {
            Some((LexState::Start, prims, ops))
        } else if is_digit(c) {
            Some((LexState::Digits { value: digit_value(c) as Integer }, prims, ops))
        } else if is_name_start(c) {
            Some((LexState::Name { start: i as usize }, prims, ops))
        } else {
            None
        },
        LexState::Digits { value } => if is_digit(c) {
            match push_digit(value, c) {
                Some(v) => Some((LexState::Digits { value: v }, prims, ops)),
                None => None,
            }
        } else if c == 'd' {
            Some((LexState::Die { amount: value }, prims, ops))
        } else {
            after_primary(prims, ops, Prim::Integer(value), c)
        },
        LexState::Die { amount } => if is_digit(c) {
            Some((LexState::DieDigits { amount, value: digit_value(c) as Integer }, prims, ops))
        } else {
            None
        },
        LexState::DieDigits { amount, value } => if is_digit(c) {
            match push_digit(value, c) {
                Some(v) => Some((LexState::DieDigits { amount, value: v }, prims, ops)),
                None => None,
            }
        } else {
            after_primary(prims, ops, Prim::Roll(amount, value), c)
        },
        LexState::Name { start } => if is_name_char(c) {
            Some((LexState::Name { start }, prims, ops))
        } else {
            after_primary(prims, ops, Prim::Variable(start, i as usize), c)
        },
        LexState::Operator => if is_space(c) {
            Some((LexState::Operator, prims, ops))
        } else if op_of(c) is Some {
            Some((LexState::Start, prims, ops.push(op_of(c)->0)))
        } else {
            None
        },
    }
}

/// The primaries and operators of the source after the lexer reached its end.
pub open spec fn lex_end(len: int, st: LexState, prims: Seq<Prim>, ops: Seq<OpKind>) -> Option<(Seq<Prim>, Seq<OpKind>)> {
    match st {
        LexState::Digits { value } => Some((prims.push(Prim::Integer(value)), ops)),
        LexState::DieDigits { amount, value } => Some((prims.push(Prim::Roll(amount, value)), ops)),
        LexState::Name { start } => Some((prims.push(Prim::Variable(start, len as usize)), ops)),
        LexState::Operator => Some((prims, ops)),
        _ => None,
    }
}

/// The primaries and operators of `s` from `i` on, the lexer standing at `st`.
pub open spec fn lex_from(s: Seq<char>, i: int, st: LexState, prims: Seq<Prim>, ops: Seq<OpKind>) -> Option<(Seq<Prim>, Seq<OpKind>)>
    decreases s.len() - i,
{
    if i < 0 || i >= s.len() {
        lex_end(s.len() as int, st, prims, ops)
    } else {
        match lex_step(s, i, st, prims, ops) {
            Some((st2, prims2, ops2)) => lex_from(s, i + 1, st2, prims2, ops2),
            None => None,
        }
    }
}

/// The primaries and operators of an expression, in order; `None` where it is not one.
pub open spec fn lex(s: Seq<char>) -> Option<(Seq<Prim>, Seq<OpKind>)> {
    lex_from(s, 0, LexState::Start, Seq::empty(), Seq::empty())
}

fn op_char(c: char) -> (res: Option<OpKind>)
    ensures
        res == op_of(c),
{
    if c == '+' {
        Some(OpKind::Add)
    } else if c == '-' {
        Some(OpKind::Sub)
    } else if c == '*' {
        Some(OpKind::Mul)
    } else if c == '/' {
        Some(OpKind::Div)
    } else {
        None
    }
}

fn next_digit(value: Integer, c: char) -> (res: Option<Integer>)
    requires
        0 <= value,
        is_digit(c),
    ensures
        res == push_digit(value, c),
        res matches Some(v) ==> 0 <= v,
{
    let d = (c as u32 - '0' as u32) as i64;
    if value > (i64::MAX - d) / 10 {
        assert(value * 10 + d > i64::MAX) by (nonlinear_arith)
            requires
                value > (i64::MAX - d) / 10,
                0 <= d <= 9,
        ;
        None
    } else {
        assert(value * 10 + d <= i64::MAX) by (nonlinear_arith)
            requires
                value <= (i64::MAX - d) / 10,
                0 <= d <= 9,
        ;
        Some(value * 10 + d)
    }
}

fn follow_primary(prims: &mut Vec<Prim>, ops: &mut Vec<OpKind>, p: Prim, c: char) -> (res: Option<LexState>)
    ensures
        match after_primary(old(prims)@, old(ops)@, p, c) {
            Some((st, ps, os)) => res == Some(st) && final(prims)@ == ps && final(ops)@ == os,
            None => res is None,
        },
{
    if c == ' ' || c == '\t' {
        prims.push(p);
        Some(LexState::Operator)
    } else {
        match op_char(c) {
            Some(o) => {
                prims.push(p);
                ops.push(o);
                Some(LexState::Start)
            },
            None => None,
        }
    }
}

/// Whether every number the lexer holds is not negative.
pub open spec fn lex_state_ok(st: LexState) -> bool {
    match st {
        LexState::Digits { value } => 0 <= value,
        LexState::Die { amount } => 0 <= amount,
        LexState::DieDigits { amount, value } => 0 <= amount && 0 <= value,
        _ => true,
    }
}

/// How many primaries the lexer has, against its operators, and where its names start.
pub open spec fn lex_shape(st: LexState, i: int, prims: Seq<Prim>, ops: Seq<OpKind>) -> bool {
    &&& prims.len() + ops.len() + (if st is Start || st is Operator { 0int } else { 1int }) <= i
    &&& match st {
        LexState::Operator => prims.len() == ops.len() + 1,
        LexState::Name { start } => prims.len() == ops.len() && start < i,
        _ => prims.len() == ops.len(),
    }
    &&& forall|k: int| 0 <= k < prims.len() ==> (#[trigger] prims[k] matches Prim::Variable(a, b) ==> a < b <= i)
}

/// Whether the primaries and operators alternate, starting and ending with a primary, and the
/// variables are spans of a source of `len` characters.
pub open spec fn alternating(prims: Seq<Prim>, ops: Seq<OpKind>, len: int) -> bool {
    &&& prims.len() == ops.len() + 1
    &&& forall|k: int| 0 <= k < prims.len() ==> (#[trigger] prims[k] matches Prim::Variable(a, b) ==> a < b <= len)
}

/// Splits `source` into its primaries and operators.
pub fn lex_expression(source: &str) -> (res: Option<(Vec<Prim>, Vec<OpKind>)>)
    ensures
        match res {
            Some((ps, os)) => lex(source@) == Some((ps@, os@)) && alternating(ps@, os@, source@.len() as int)
                && 2 * os@.len() + 1 <= source@.len(),
            None => lex(source@) is None,
        },
{
    let len = source.unicode_len();
    let mut st = LexState::Start;
    let mut prims: Vec<Prim> = Vec::new();
    let mut ops: Vec<OpKind> = Vec::new();
    let mut i: usize = 0;
    while i < len
        invariant
            0 <= i <= len,
            len == source@.len(),
            lex_state_ok(st),
            lex_shape(st, i as int, prims@, ops@),
            lex(source@) == lex_from(source@, i as int, st, prims@, ops@),
        decreases len - i,
    {
        let c = source.get_char(i);
        let ghost before = (st, prims@, ops@);
        let next = match st {
            LexState::Start => if c == ' ' || c == '\t' {
                Some(LexState::Start)
            } else if '0' <= c && c <= '9' {
                Some(LexState::Digits { value: (c as u32 - '0' as u32) as i64 })
            } else if ('a' <= c && c <= 'z') || ('A' <= c && c <= 'Z') || c == '_' {
                Some(LexState::Name { start: i })
            } else {
                None
            },
            LexState::Digits { value } => if '0' <= c && c <= '9' {
                match next_digit(value, c) {
                    Some(v) => Some(LexState::Digits { value: v }),
                    None => None,
                }
            } else if c == 'd' {
                Some(LexState::Die { amount: value })
            } else {
                follow_primary(&mut prims, &mut ops, Prim::Integer(value), c)
            },
            LexState::Die { amount } => if '0' <= c && c <= '9' {
                Some(LexState::DieDigits { amount, value: (c as u32 - '0' as u32) as i64 })
            } else {
                None
            },
            LexState::DieDigits { amount, value } => if '0' <= c && c <= '9' {
                match next_digit(value, c) {
                    Some(v) => Some(LexState::DieDigits { amount, value: v }),
                    None => None,
                }
            } else {
                follow_primary(&mut prims, &mut ops, Prim::Roll(amount, value), c)
            },
            LexState::Name { start } => if ('a' <= c && c <= 'z') || ('A' <= c && c <= 'Z') || c == '_' || ('0'
                <= c && c <= '9') {
                Some(LexState::Name { start })
            } else {
                follow_primary(&mut prims, &mut ops, Prim::Variable(start, i), c)
            },
            LexState::Operator => if c == ' ' || c == '\t' {
                Some(LexState::Operator)
            } else {
                match op_char(c) {
                    Some(o) => {
                        ops.push(o);
                        Some(LexState::Start)
                    },
                    None => None,
                }
            },
        };
        match next {
            Some(st2) => {
                assert(lex_step(source@, i as int, before.0, before.1, before.2) == Some((st2, prims@, ops@)));
                st = st2;
            },
            None => {
                assert(lex_step(source@, i as int, before.0, before.1, before.2) is None);
                return None;
            },
        }
        i += 1;
    }
    match st {
        LexState::Digits { value } => prims.push(Prim::Integer(value)),
        LexState::DieDigits { amount, value } => prims.push(Prim::Roll(amount, value)),
        LexState::Name { start } => prims.push(Prim::Variable(start, len)),
        LexState::Operator => {},
        _ => return None,
    }
    assert(source@.len() == len);
    Some((prims, ops))
}

/// The shape of a parsed expression.
pub enum Term {
    Leaf(Prim),
    Binary(OpKind, Box<Term>, Box<Term>),
    /// An operation with a constant, which always stands on the right.
    Constant(OpKind, Box<Term>, Integer),
}

/// Two terms joined by an operator. A constant on either side becomes the constant of the
/// operation, on its right: `2 - x` is taken as `x - 2`.
pub open spec fn join(lhs: Term, op: OpKind, rhs: Term) -> Term {
    match lhs {
        Term::Leaf(Prim::Integer(i)) => Term::Constant(op, Box::new(rhs), i),
        _ => match rhs {
            Term::Leaf(Prim::Integer(i)) => Term::Constant(op, Box::new(lhs), i),
            _ => Term::Binary(op, Box::new(lhs), Box::new(rhs)),
        },
    }
}

pub open spec fn is_additive(op: OpKind) -> bool {
    op is Add || op is Sub
}

/// The product of the primaries `a..=b`, grouped to the left.
pub open spec fn product_term(prims: Seq<Prim>, ops: Seq<OpKind>, a: int, b: int) -> Term
    decreases b - a,
{
    if b <= a {
        Term::Leaf(prims[a])
    } else {
        join(product_term(prims, ops, a, b - 1), ops[b - 1], Term::Leaf(prims[b]))
    }
}

/// The last additive operator among the first `k`.
pub open spec fn last_additive(ops: Seq<OpKind>, k: int) -> Option<int>
    decreases k,
{
    if k <= 0 {
        None
    } else if is_additive(ops[k - 1]) {
        Some(k - 1)
    } else {
        last_additive(ops, k - 1)
    }
}

proof fn lemma_last_additive(ops: Seq<OpKind>, k: int)
    ensures
        last_additive(ops, k) matches Some(j) ==> 0 <= j < k && is_additive(ops[j]),
        last_additive(ops, k) is None ==> forall|j: int| 0 <= j < k ==> !is_additive(#[trigger] ops[j]),
    decreases k,
{
    if k > 0 && !is_additive(ops[k - 1]) {
        lemma_last_additive(ops, k - 1);
    }
}

/// The sum of the products of the primaries `0..=k`, grouped to the left.
pub open spec fn sum_term(prims: Seq<Prim>, ops: Seq<OpKind>, k: int) -> Term
    decreases k,
{
    match last_additive(ops, k) {
        None => product_term(prims, ops, 0, k),
        Some(j) => if 0 <= j < k {
            join(sum_term(prims, ops, j), ops[j], product_term(prims, ops, j + 1, k))
        } else {
            product_term(prims, ops, 0, k)
        },
    }
}

/// A node of a parsed expression; the operands of the self-referential ones are leaves, by index.
#[derive(Clone, Copy, Debug, PartialEq, Eq, Structural)]
pub enum Operation {
    Integer(Integer),
    Variable(usize, usize),
    // Self-referential
    Add(usize, usize),
    Sub(usize, usize),
    Mul(usize, usize),
    Div(usize, usize),
    // Constant operations
    AddC(usize, Integer),
    SubC(usize, Integer),
    MulC(usize, Integer),
    DivC(usize, Integer),
    Roll(Integer, Integer),
}

/// The operator and the operands of a node.
pub open spec fn binary_parts(op: Operation) -> Option<(OpKind, usize, usize)> {
    match op {
        Operation::Add(a, b) => Some((OpKind::Add, a, b)),
        Operation::Sub(a, b) => Some((OpKind::Sub, a, b)),
        Operation::Mul(a, b) => Some((OpKind::Mul, a, b)),
        Operation::Div(a, b) => Some((OpKind::Div, a, b)),
        _ => None,
    }
}

pub open spec fn constant_parts(op: Operation) -> Option<(OpKind, usize, Integer)> {
    match op {
        Operation::AddC(x, i) => Some((OpKind::Add, x, i)),
        Operation::SubC(x, i) => Some((OpKind::Sub, x, i)),
        Operation::MulC(x, i) => Some((OpKind::Mul, x, i)),
        Operation::DivC(x, i) => Some((OpKind::Div, x, i)),
        _ => None,
    }
}

/// Whether the operands of `op` are leaves before `bound`.
pub open spec fn refers_below(op: Operation, bound: int) -> bool {
    &&& binary_parts(op) matches Some((_, a, b)) ==> a < bound && b < bound
    &&& constant_parts(op) matches Some((_, x, _)) ==> x < bound
}

/// Whether a variable node spells part of a source of `len` characters.
pub open spec fn span_ok(op: Operation, len: int) -> bool {
    op matches Operation::Variable(a, b) ==> a <= b <= len
}

/// Whether the variable leaves spell parts of a source of `len` characters.
pub open spec fn spans_ok(leaves: Seq<Operation>, len: int) -> bool {
    forall|k: int| 0 <= k < leaves.len() ==> span_ok(#[trigger] leaves[k], len)
}

/// Whether every leaf refers only to the leaves before it.
pub open spec fn leaves_ordered(leaves: Seq<Operation>) -> bool {
    forall|k: int| 0 <= k < leaves.len() ==> refers_below(#[trigger] leaves[k], k)
}

/// The term that node `op` stands for, its operands looked up in `leaves` below `bound`.
pub open spec fn term_of(leaves: Seq<Operation>, op: Operation, bound: nat) -> Term
    decreases bound,
{
    match op {
        Operation::Integer(i) => Term::Leaf(Prim::Integer(i)),
        Operation::Variable(a, b) => Term::Leaf(Prim::Variable(a, b)),
        Operation::Roll(n, d) => Term::Leaf(Prim::Roll(n, d)),
        _ => match binary_parts(op) {
            Some((o, a, b)) => if a < bound && b < bound {
                Term::Binary(
                    o,
                    Box::new(term_of(leaves, leaves[a as int], a as nat)),
                    Box::new(term_of(leaves, leaves[b as int], b as nat)),
                )
            } else {
                Term::Leaf(Prim::Integer(0))
            },
            None => match constant_parts(op) {
                Some((o, x, i)) => if x < bound {
                    Term::Constant(o, Box::new(term_of(leaves, leaves[x as int], x as nat)), i)
                } else {
                    Term::Leaf(Prim::Integer(0))
                },
                None => Term::Leaf(Prim::Integer(0)),
            },
        },
    }
}

proof fn lemma_term_of_prefix(l1: Seq<Operation>, l2: Seq<Operation>, op: Operation, bound: nat)
    requires
        bound <= l1.len() <= l2.len(),
        l1 == l2.take(l1.len() as int),
    ensures
        term_of(l1, op, bound) == term_of(l2, op, bound),
    decreases bound,
{
    match binary_parts(op) {
        Some((o, a, b)) => if a < bound && b < bound {
            assert(l1[a as int] == l2[a as int]);
            assert(l1[b as int] == l2[b as int]);
            lemma_term_of_prefix(l1, l2, l1[a as int], a as nat);
            lemma_term_of_prefix(l1, l2, l1[b as int], b as nat);
        },
        None => match constant_parts(op) {
            Some((o, x, i)) => if x < bound {
                assert(l1[x as int] == l2[x as int]);
                lemma_term_of_prefix(l1, l2, l1[x as int], x as nat);
            },
            None => {},
        },
    }
}

proof fn lemma_term_of_bound(l: Seq<Operation>, op: Operation, b1: nat, b2: nat)
    requires
        refers_below(op, b1 as int),
        b1 <= b2,
    ensures
        term_of(l, op, b1) == term_of(l, op, b2),
{
}

fn leaf(p: Prim) -> (res: Operation)
    ensures
        forall|l: Seq<Operation>, b: nat| #[trigger] term_of(l, res, b) == Term::Leaf(p),
        refers_below(res, 0),
        forall|len: int| (p matches Prim::Variable(a, b) ==> a <= b <= len) ==> #[trigger] span_ok(res, len),
{
    match p {
        Prim::Integer(i) => Operation::Integer(i),
        Prim::Variable(a, b) => Operation::Variable(a, b),
        Prim::Roll(n, d) => Operation::Roll(n, d),
    }
}

/// Joins two nodes, adding the operands that become leaves.
fn join_nodes(leaves: &mut Vec<Operation>, lhs: Operation, op: OpKind, rhs: Operation, Ghost(len): Ghost<int>) -> (res: Operation)
    requires
        spans_ok(old(leaves)@, len),
        span_ok(lhs, len),
        span_ok(rhs, len),
        leaves_ordered(old(leaves)@),
        refers_below(lhs, old(leaves)@.len() as int),
        refers_below(rhs, old(leaves)@.len() as int),
        old(leaves)@.len() + 2 <= usize::MAX,
    ensures
        spans_ok(final(leaves)@, len),
        span_ok(res, len),
        leaves_ordered(final(leaves)@),
        old(leaves)@ == final(leaves)@.take(old(leaves)@.len() as int),
        old(leaves)@.len() <= final(leaves)@.len() <= old(leaves)@.len() + 2,
        refers_below(res, final(leaves)@.len() as int),
        term_of(final(leaves)@, res, final(leaves)@.len() as nat) == join(
            term_of(old(leaves)@, lhs, old(leaves)@.len() as nat),
            op,
            term_of(old(leaves)@, rhs, old(leaves)@.len() as nat),
        ),
{
    let ghost l0 = leaves@;
    let ghost n = l0.len() as nat;
    let ghost lt = term_of(l0, lhs, n);
    let ghost rt = term_of(l0, rhs, n);
    if let Operation::Integer(i) = lhs {
        let x = leaves.len();
        leaves.push(rhs);
        proof {
            assert(leaves@[x as int] == rhs);
            assert(forall|k: int| 0 <= k < n ==> leaves@[k] == l0[k]);
            assert(l0 == leaves@.take(n as int));
            lemma_term_of_prefix(l0, leaves@, rhs, n);
            lemma_term_of_bound(leaves@, rhs, n, n);
        }
        match op {
            OpKind::Add => Operation::AddC(x, i),
            OpKind::Sub => Operation::SubC(x, i),
            OpKind::Mul => Operation::MulC(x, i),
            OpKind::Div => Operation::DivC(x, i),
        }
    } else if let Operation::Integer(i) = rhs {
        let x = leaves.len();
        leaves.push(lhs);
        proof {
            assert(leaves@[x as int] == lhs);
            assert(forall|k: int| 0 <= k < n ==> leaves@[k] == l0[k]);
            assert(l0 == leaves@.take(n as int));
            lemma_term_of_prefix(l0, leaves@, lhs, n);
        }
        match op {
            OpKind::Add => Operation::AddC(x, i),
            OpKind::Sub => Operation::SubC(x, i),
            OpKind::Mul => Operation::MulC(x, i),
            OpKind::Div => Operation::DivC(x, i),
        }
    } else {
        let a = leaves.len();
        leaves.push(lhs);
        let b = leaves.len();
        leaves.push(rhs);
        proof {
            assert(leaves@[a as int] == lhs);
            assert(leaves@[b as int] == rhs);
            assert(l0 == leaves@.take(n as int));
            assert(l0 == leaves@.take(n as int + 1).take(n as int));
            lemma_term_of_prefix(l0, leaves@, lhs, n);
            lemma_term_of_prefix(l0, leaves@, rhs, n);
            lemma_term_of_bound(leaves@, rhs, n, b as nat);
            assert forall|k: int| 0 <= k < leaves@.len() implies refers_below(#[trigger] leaves@[k], k) by {
                if k < n {
                    assert(leaves@[k] == l0[k]);
                }
            }
        }
        match op {
            OpKind::Add => Operation::Add(a, b),
            OpKind::Sub => Operation::Sub(a, b),
            OpKind::Mul => Operation::Mul(a, b),
            OpKind::Div => Operation::Div(a, b),
        }
    }
}

/// The root of the tree of primaries and operators, and its leaves.
fn build(prims: &Vec<Prim>, ops: &Vec<OpKind>, Ghost(len): Ghost<int>) -> (res: (Operation, Vec<Operation>))
    requires
        alternating(prims@, ops@, len),
        2 * ops@.len() + 2 <= usize::MAX,
    ensures
        spans_ok(res.1@, len),
        span_ok(res.0, len),
        leaves_ordered(res.1@),
        refers_below(res.0, res.1@.len() as int),
        term_of(res.1@, res.0, res.1@.len() as nat) == sum_term(prims@, ops@, ops@.len() as int),
{
    let ghost ps = prims@;
    let ghost os = ops@;
    let mut leaves: Vec<Operation> = Vec::new();
    let mut sum: Option<(Operation, OpKind)> = None;
    let mut product = leaf(prims[0]);
    assert(ps[0] matches Prim::Variable(a, b) ==> a < b <= len);
    let mut i: usize = 0;
    while i < ops.len()
        invariant
            0 <= i <= os.len(),
            alternating(ps, os, len),
            spans_ok(leaves@, len),
            span_ok(product, len),
            sum matches Some((acc, _)) ==> span_ok(acc, len),
            ps == prims@,
            os == ops@,
            ps.len() == os.len() + 1,
            2 * os.len() + 2 <= usize::MAX,
            leaves@.len() <= 2 * i,
            leaves_ordered(leaves@),
            refers_below(product, leaves@.len() as int),
            term_of(leaves@, product, leaves@.len() as nat) == product_term(
                ps,
                os,
                match last_additive(os, i as int) {
                    Some(j) => j + 1,
                    None => 0,
                },
                i as int,
            ),
            match sum {
                None => last_additive(os, i as int) is None,
                Some((acc, op)) => last_additive(os, i as int) matches Some(j) && op == os[j]
                    && refers_below(acc, leaves@.len() as int) && term_of(leaves@, acc, leaves@.len() as nat)
                    == sum_term(ps, os, j),
            },
        decreases os.len() - i,
    {
        proof {
            lemma_last_additive(os, i as int);
        }
        let o = ops[i];
        let next = leaf(prims[i + 1]);
        assert(ps[i + 1] matches Prim::Variable(a, b) ==> a < b <= len);
        if matches!(o, OpKind::Add | OpKind::Sub) {
            let ghost start = match last_additive(os, i as int) {
                Some(j) => j + 1,
                None => 0,
            };
            let ghost l0 = leaves@;
            let closed = match sum {
                None => product,
                Some((acc, op)) => join_nodes(&mut leaves, acc, op, product, Ghost(len)),
            };
            proof {
                match last_additive(os, i as int) {
                    None => {
                        assert(sum_term(ps, os, i as int) == product_term(ps, os, 0, i as int));
                    },
                    Some(j) => {
                        assert(sum_term(ps, os, i as int) == join(
                            sum_term(ps, os, j),
                            os[j],
                            product_term(ps, os, j + 1, i as int),
                        ));
                    },
                }
                assert(last_additive(os, i + 1) == Some(i as int));
            }
            sum = Some((closed, o));
            product = next;
        } else {
            let ghost acc_term = match sum {
                Some((acc, _)) => term_of(leaves@, acc, leaves@.len() as nat),
                None => Term::Leaf(Prim::Integer(0)),
            };
            let ghost l0 = leaves@;
            product = join_nodes(&mut leaves, product, o, next, Ghost(len));
            proof {
                assert(last_additive(os, i + 1) == last_additive(os, i as int));
                match sum {
                    Some((acc, _)) => {
                        lemma_term_of_prefix(l0, leaves@, acc, l0.len() as nat);
                        lemma_term_of_bound(leaves@, acc, l0.len() as nat, leaves@.len() as nat);
                    },
                    None => {},
                }
            }
        }
        i += 1;
    }
    proof {
        lemma_last_additive(os, os.len() as int);
    }
    let root = match sum {
        None => product,
        Some((acc, op)) => join_nodes(&mut leaves, acc, op, product, Ghost(len)),
    };
    (root, leaves)
}

/// An expression that does not follow the grammar of expressions.
#[derive(Clone, Copy, Debug, PartialEq, Eq)]
pub struct SyntaxError;

/// A parsed expression: the root node, whose operands are among the leaves.
#[derive(Clone, Debug)]
pub struct Expression {
    pub source: String,
    pub root: Operation,
    pub leaves: Vec<Operation>,
}

impl Expression {
    /// Whether every node refers to nodes before it.
    pub open spec fn well_formed(self) -> bool {
        &&& leaves_ordered(self.leaves@)
        &&& refers_below(self.root, self.leaves@.len() as int)
        &&& spans_ok(self.leaves@, self.source@.len() as int)
        &&& span_ok(self.root, self.source@.len() as int)
    }

    /// The term the expression stands for.
    pub open spec fn term(self) -> Term {
        term_of(self.leaves@, self.root, self.leaves@.len() as nat)
    }

    /// Parses `source`.
    ///
    /// # Errors
    ///
    /// Fails where `source` is not an expression.
    pub fn try_from(source: String) -> (res: Result<Expression, SyntaxError>)
        requires
            source@.len() < usize::MAX,
        ensures
            match res {
                Ok(e) => e.source@ == source@ && e.well_formed() && (lex(source@) matches Some((ps, os))
                    && e.term() == sum_term(ps, os, os.len() as int)),
                Err(_) => lex(source@) is None,
            },
    {
        let (prims, ops) = match lex_expression(source.as_str()) {
            Some(parts) => parts,
            None => return Err(SyntaxError),
        };
        let (root, leaves) = build(&prims, &ops, Ghost(source@.len() as int));
        Ok(Expression { source, root, leaves })
    }
}

impl Default for Expression {
    fn default() -> (res: Expression)
        ensures
            res.source@ == "0"@,
            res.root == Operation::Integer(0),
            res.leaves@.len() == 0,
    {
        Expression { source: String::from_str("0"), root: Operation::Integer(0), leaves: Vec::new() }
    }
}

/// Why an expression could not be evaluated.
#[derive(Clone, Debug)]
pub enum Error {
    /// A variable, when no variables are defined.
    NoVariables(String),
    /// A variable that is not defined.
    MissingVariable(String),
    /// A result that does not fit the type asked for.
    OutOfRange(Integer, &'static str),
    /// An operation whose result does not fit an `Integer`, a division by zero, or a roll of a
    /// die without sides.
    Arithmetic,
}

/// What evaluation can fail on, as an error says it.
pub enum Fault {
    NoVariables(Seq<char>),
    MissingVariable(Seq<char>),
    OutOfRange(Integer, Seq<char>),
    Arithmetic,
}

impl Error {
    pub open spec fn fault(self) -> Fault {
        match self {
            Error::NoVariables(name) => Fault::NoVariables(name@),
            Error::MissingVariable(name) => Fault::MissingVariable(name@),
            Error::OutOfRange(x, kind) => Fault::OutOfRange(x, kind@),
            Error::Arithmetic => Fault::Arithmetic,
        }
    }
}

/// The values of the variables an expression may use.
pub trait Variables {
    /// The value of the variable `name`, where it is defined; by default none is.
    open spec fn value_of(&self, name: Seq<char>) -> Option<Integer> {
        None
    }

    /// The failure that asking for the undefined variable `name` gives; by default, that it is missing.
    open spec fn missing(&self, name: Seq<char>) -> Fault {
        Fault::MissingVariable(name)
    }

    /// The value of the variable `s`: `Err(Error::MissingVariable(s))` where it is not defined.
    fn get(&self, s: &str) -> (res: Result<Integer, Error>)
        ensures
            match res {
                Ok(v) => self.value_of(s@) == Some(v),
                Err(e) => self.value_of(s@) is None && e.fault() == self.missing(s@),
            },
    ;
}

impl Variables for () {
    open spec fn missing(&self, name: Seq<char>) -> Fault {
        Fault::NoVariables(name)
    }

    fn get(&self, s: &str) -> (res: Result<Integer, Error>) {
        Err(Error::NoVariables(String::from_str(s)))
    }
}

/// `rand::thread_rng().gen_range(1..=sides)`: a roll of a die with `sides` sides.
#[verifier::external_body]
fn roll_die(sides: Integer) -> (res: Integer)
    requires
        sides >= 1,
    ensures
        1 <= res <= sides,
{
    rand::thread_rng().gen_range(1..=sides)
}

/// `a op b`, where the result fits (and, for a division, the divisor is not zero); the division
/// rounds towards zero.
pub open spec fn apply(op: OpKind, a: Integer, b: Integer) -> Option<Integer> {
    match op {
        OpKind::Add => a.checked_add(b),
        OpKind::Sub => a.checked_sub(b),
        OpKind::Mul => a.checked_mul(b),
        OpKind::Div => a.checked_div(b),
    }
}

fn apply_op(op: OpKind, a: Integer, b: Integer) -> (res: Option<Integer>)
    ensures
        res == apply(op, a, b),
{
    match op {
        OpKind::Add => a.checked_add(b),
        OpKind::Sub => a.checked_sub(b),
        OpKind::Mul => a.checked_mul(b),
        OpKind::Div => a.checked_div(b),
    }
}

/// The outcome of an operation on the outcomes of its operands, the left one first.
pub open spec fn then_apply(op: OpKind, left: Result<Integer, Fault>, right: Result<Integer, Fault>) -> Result<Integer, Fault> {
    match left {
        Err(f) => Err(f),
        Ok(a) => match right {
            Err(f) => Err(f),
            Ok(b) => match apply(op, a, b) {
                Some(v) => Ok(v),
                None => Err(Fault::Arithmetic),
            },
        },
    }
}

/// Whether `out` is an outcome of `n` rolls of a die with `d` sides, summed.
pub open spec fn rolled(n: Integer, d: Integer, out: Result<Integer, Fault>) -> bool {
    if n <= 0 {
        out == Ok::<Integer, Fault>(0)
    } else if d < 1 {
        out == Err::<Integer, Fault>(Fault::Arithmetic)
    } else {
        (out matches Ok(v) && n <= v <= n * d) || (out == Err::<Integer, Fault>(Fault::Arithmetic) && n * d > i64::MAX)
    }
}

/// The outcomes of evaluating `t`, whose variables are spelt in `source`: the operands from
/// left to right, the first failure ending it; a roll of `n` dice with `d` sides gives between
/// `n` and `n * d`.
pub open spec fn outcomes<V: Variables>(t: Term, source: Seq<char>, vars: V) -> Set<Result<Integer, Fault>>
    decreases t,
{
    match t {
        Term::Leaf(Prim::Integer(i)) => set![Ok(i)],
        Term::Leaf(Prim::Variable(a, b)) => {
            let name = source.subrange(a as int, b as int);
            match vars.value_of(name) {
                Some(v) => set![Ok(v)],
                None => set![Err(vars.missing(name))],
            }
        },
        Term::Leaf(Prim::Roll(n, d)) => Set::new(|out: Result<Integer, Fault>| rolled(n, d, out)),
        Term::Binary(op, l, r) => {
            let lefts = outcomes(*l, source, vars);
            let rights = outcomes(*r, source, vars);
            Set::new(
                |out: Result<Integer, Fault>|
                    exists|left: Result<Integer, Fault>|
                        #[trigger] lefts.contains(left) && match left {
                            Err(f) => out == Err::<Integer, Fault>(f),
                            Ok(_) => exists|right: Result<Integer, Fault>|
                                #[trigger] rights.contains(right) && out == then_apply(op, left, right),
                        },
            )
        },
        Term::Constant(op, x, i) => {
            let lefts = outcomes(*x, source, vars);
            Set::new(
                |out: Result<Integer, Fault>|
                    exists|left: Result<Integer, Fault>| #[trigger] lefts.contains(left) && out == then_apply(op, left, Ok(i)),
            )
        },
    }
}

/// Whether `out` is an outcome of evaluating `t`.
pub open spec fn evaluates<V: Variables>(t: Term, source: Seq<char>, vars: V, out: Result<Integer, Fault>) -> bool {
    outcomes(t, source, vars).contains(out)
}

proof fn lemma_evaluates_binary<V: Variables>(
    op: OpKind,
    l: Term,
    r: Term,
    source: Seq<char>,
    vars: V,
    left: Result<Integer, Fault>,
    right: Result<Integer, Fault>,
)
    requires
        evaluates(l, source, vars, left),
        left is Ok ==> evaluates(r, source, vars, right),
    ensures
        evaluates(Term::Binary(op, Box::new(l), Box::new(r)), source, vars, then_apply(op, left, right)),
{
    let lefts = outcomes(l, source, vars);
    let rights = outcomes(r, source, vars);
    assert(lefts.contains(left));
    if left is Ok {
        assert(rights.contains(right));
    }
}

proof fn lemma_evaluates_constant<V: Variables>(
    op: OpKind,
    x: Term,
    i: Integer,
    source: Seq<char>,
    vars: V,
    left: Result<Integer, Fault>,
)
    requires
        evaluates(x, source, vars, left),
    ensures
        evaluates(Term::Constant(op, Box::new(x), i), source, vars, then_apply(op, left, Ok(i))),
{
    assert(outcomes(x, source, vars).contains(left));
}

pub open spec fn outcome(res: Result<Integer, Error>) -> Result<Integer, Fault> {
    match res {
        Ok(v) => Ok(v),
        Err(e) => Err(e.fault()),
    }
}

/// The sum of `amount` rolls of a die with `sides` sides.
fn roll(amount: Integer, sides: Integer) -> (res: Result<Integer, Error>)
    ensures
        rolled(amount, sides, outcome(res)),
{
    if amount <= 0 {
        return Ok(0);
    }
    if sides < 1 {
        return Err(Error::Arithmetic);
    }
    let mut total: Integer = 0;
    let mut k: Integer = 0;
    while k < amount
        invariant
            0 <= k <= amount,
            sides >= 1,
            k <= total <= k * sides,
        decreases amount - k,
    {
        let r = roll_die(sides);
        match total.checked_add(r) {
            Some(t) => {
                assert(t <= (k + 1) * sides) by (nonlinear_arith)
                    requires
                        t == total + r,
                        total <= k * sides,
                        r <= sides,
                ;
                total = t;
            },
            None => {
                assert(amount * sides > i64::MAX) by (nonlinear_arith)
                    requires
                        total + r > i64::MAX,
                        total <= k * sides,
                        r <= sides,
                        k < amount,
                        sides >= 1,
                ;
                return Err(Error::Arithmetic);
            },
        }
        k += 1;
    }
    Ok(total)
}

impl Expression {
    /// Evaluates node `op`, whose operands are leaves before `bound`.
    fn eval_node<V: Variables>(&self, op: Operation, bound: usize, variables: &V) -> (res: Result<Integer, Error>)
        requires
            self.well_formed(),
            bound <= self.leaves@.len(),
            refers_below(op, bound as int),
            span_ok(op, self.source@.len() as int),
        ensures
            evaluates(term_of(self.leaves@, op, bound as nat), self.source@, *variables, outcome(res)),
        decreases bound,
    {
        match op {
            Operation::Integer(i) => Ok(i),
            Operation::Variable(a, b) => variables.get(self.source.as_str().substring_char(a, b)),
            Operation::Roll(n, d) => roll(n, d),
            Operation::Add(a, b) | Operation::Sub(a, b) | Operation::Mul(a, b) | Operation::Div(a, b) => {
                let kind = match op {
                    Operation::Add(..) => OpKind::Add,
                    Operation::Sub(..) => OpKind::Sub,
                    Operation::Mul(..) => OpKind::Mul,
                    _ => OpKind::Div,
                };
                assert(binary_parts(op) == Some((kind, a, b)));
                let ghost lt = term_of(self.leaves@, self.leaves@[a as int], a as nat);
                let ghost rt = term_of(self.leaves@, self.leaves@[b as int], b as nat);
                let left = self.eval_node(self.leaves[a], a, variables);
                match left {
                    Err(e) => {
                        assert(term_of(self.leaves@, op, bound as nat) == Term::Binary(kind, Box::new(lt), Box::new(rt)));
                        proof {
                            lemma_evaluates_binary(kind, lt, rt, self.source@, *variables, outcome(left), outcome(left));
                        }
                        Err(e)
                    },
                    Ok(x) => {
                        let right = self.eval_node(self.leaves[b], b, variables);
                        assert(evaluates(lt, self.source@, *variables, outcome(left)));
                        assert(evaluates(rt, self.source@, *variables, outcome(right)));
                        let r = match right {
                            Err(e) => Err(e),
                            Ok(y) => match apply_op(kind, x, y) {
                                Some(v) => Ok(v),
                                None => Err(Error::Arithmetic),
                            },
                        };
                        assert(term_of(self.leaves@, op, bound as nat) == Term::Binary(kind, Box::new(lt), Box::new(rt)));
                        proof {
                            lemma_evaluates_binary(kind, lt, rt, self.source@, *variables, outcome(left), outcome(right));
                        }
                        r
                    },
                }
            },
            Operation::AddC(x, i) | Operation::SubC(x, i) | Operation::MulC(x, i) | Operation::DivC(x, i) => {
                let kind = match op {
                    Operation::AddC(..) => OpKind::Add,
                    Operation::SubC(..) => OpKind::Sub,
                    Operation::MulC(..) => OpKind::Mul,
                    _ => OpKind::Div,
                };
                assert(constant_parts(op) == Some((kind, x, i)));
                let ghost xt = term_of(self.leaves@, self.leaves@[x as int], x as nat);
                let left = self.eval_node(self.leaves[x], x, variables);
                assert(evaluates(xt, self.source@, *variables, outcome(left)));
                let r = match left {
                    Err(e) => Err(e),
                    Ok(v) => match apply_op(kind, v, i) {
                        Some(r) => Ok(r),
                        None => Err(Error::Arithmetic),
                    },
                };
                assert(term_of(self.leaves@, op, bound as nat) == Term::Constant(kind, Box::new(xt), i));
                assert(outcome(r) == then_apply(kind, outcome(left), Ok(i)));
                proof {
                    lemma_evaluates_constant(kind, xt, i, self.source@, *variables, outcome(left));
                }
                r
            },
        }
    }

    /// Evaluates the expression with the values of `variables`.
    ///
    /// # Errors
    ///
    /// Fails on the first variable, from the left, that is not defined, or on arithmetic that
    /// leaves the range of an `Integer`.
    pub fn evaluate<V: Variables>(&self, variables: &V) -> (res: Result<Integer, Error>)
        requires
            self.well_formed(),
        ensures
            evaluates(self.term(), self.source@, *variables, outcome(res)),
    {
        self.eval_node(self.root, self.leaves.len(), variables)
    }
}

/// Evaluating an expression into a type: the result of `eval` or `evalv`.
pub trait ExpressionResult: Sized {
    /// Whether `res` is what this type makes of the outcome `out` of an evaluation.
    spec fn evaluated_as(out: Result<Integer, Fault>, res: Self) -> bool;

    /// Evaluates the expression with the values of `variables`.
    fn evalv<V: Variables>(expression: &Expression, variables: &V) -> (res: Self)
        requires
            expression.well_formed(),
        ensures
            exists|out: Result<Integer, Fault>|
                #[trigger] evaluates(expression.term(), expression.source@, *variables, out)
                    && Self::evaluated_as(out, res),
    ;

    /// Evaluates the expression, which may not use variables.
    fn eval(expression: &Expression) -> (res: Self)
        requires
            expression.well_formed(),
        ensures
            exists|out: Result<Integer, Fault>|
                #[trigger] evaluates(expression.term(), expression.source@, (), out)
                    && Self::evaluated_as(out, res),
    {
        Self::evalv(expression, &())
    }
}

impl ExpressionResult for Result<u8, Error> {
    /// The value, or why there is none: a value out of the range of `u8` is an error.
    open spec fn evaluated_as(out: Result<Integer, Fault>, res: Self) -> bool {
        match out {
            Ok(x) => if 0 <= x && x <= u8::MAX {
                res == Ok::<u8, Error>(x as u8)
            } else {
                res matches Err(Error::OutOfRange(y, kind)) && y == x && kind@ == "u8"@
            },
            Err(f) => res matches Err(e) && e.fault() == f,
        }
    }

    fn evalv<V: Variables>(expression: &Expression, variables: &V) -> (res: Self) {
        let out = expression.evaluate(variables);
        assert(evaluates(expression.term(), expression.source@, *variables, outcome(out)));
        match out {
            Ok(x) => if 0 <= x && x <= u8::MAX as i64 {
                Ok(x as u8)
            } else {
                Err(Error::OutOfRange(x, "u8"))
            },
            Err(e) => Err(e),
        }
    }
}

impl ExpressionResult for u8 {
    /// The value, or 0 where there is none or it is out of the range of `u8`.
    open spec fn evaluated_as(out: Result<Integer, Fault>, res: Self) -> bool {
        res == match out {
            Ok(x) => if 0 <= x && x <= u8::MAX {
                x as u8
            } else {
                0
            },
            Err(_) => 0,
        }
    }

    fn evalv<V: Variables>(expression: &Expression, variables: &V) -> (res: Self) {
        let out = expression.evaluate(variables);
        assert(evaluates(expression.term(), expression.source@, *variables, outcome(out)));
        match out {
            Ok(x) => if 0 <= x && x <= u8::MAX as i64 {
                x as u8
            } else {
                0
            },
            Err(_) => 0,
        }
    }
}

impl ExpressionResult for Result<u16, Error> {
    /// The value, or why there is none: a value out of the range of `u16` is an error.
    open spec fn evaluated_as(out: Result<Integer, Fault>, res: Self) -> bool {
        match out {
            Ok(x) => if 0 <= x && x <= u16::MAX {
                res == Ok::<u16, Error>(x as u16)
            } else {
                res matches Err(Error::OutOfRange(y, kind)) && y == x && kind@ == "u16"@
            },
            Err(f) => res matches Err(e) && e.fault() == f,
        }
    }

    fn evalv<V: Variables>(expression: &Expression, variables: &V) -> (res: Self) {
        let out = expression.evaluate(variables);
        assert(evaluates(expression.term(), expression.source@, *variables, outcome(out)));
        match out {
            Ok(x) => if 0 <= x && x <= u16::MAX as i64 {
                Ok(x as u16)
            } else {
                Err(Error::OutOfRange(x, "u16"))
            },
            Err(e) => Err(e),
        }
    }
}

impl ExpressionResult for u16 {
    /// The value, or 0 where there is none or it is out of the range of `u16`.
    open spec fn evaluated_as(out: Result<Integer, Fault>, res: Self) -> bool {
        res == match out {
            Ok(x) => if 0 <= x && x <= u16::MAX {
                x as u16
            } else {
                0
            },
            Err(_) => 0,
        }
    }

    fn evalv<V: Variables>(expression: &Expression, variables: &V) -> (res: Self) {
        let out = expression.evaluate(variables);
        assert(evaluates(expression.term(), expression.source@, *variables, outcome(out)));
        match out {
            Ok(x) => if 0 <= x && x <= u16::MAX as i64 {
                x as u16
            } else {
                0
            },
            Err(_) => 0,
        }
    }
}

impl ExpressionResult for Result<u32, Error> {
    /// The value, or why there is none: a value out of the range of `u32` is an error.
    open spec fn evaluated_as(out: Result<Integer, Fault>, res: Self) -> bool {
        match out {
            Ok(x) => if 0 <= x && x <= u32::MAX {
                res == Ok::<u32, Error>(x as u32)
            } else {
                res matches Err(Error::OutOfRange(y, kind)) && y == x && kind@ == "u32"@
            },
            Err(f) => res matches Err(e) && e.fault() == f,
        }
    }

    fn evalv<V: Variables>(expression: &Expression, variables: &V) -> (res: Self) {
        let out = expression.evaluate(variables);
        assert(evaluates(expression.term(), expression.source@, *variables, outcome(out)));
        match out {
            Ok(x) => if 0 <= x && x <= u32::MAX as i64 {
                Ok(x as u32)
            } else {
                Err(Error::OutOfRange(x, "u32"))
            },
            Err(e) => Err(e),
        }
    }
}

impl ExpressionResult for u32 {
    /// The value, or 0 where there is none or it is out of the range of `u32`.
    open spec fn evaluated_as(out: Result<Integer, Fault>, res: Self) -> bool {
        res == match out {
            Ok(x) => if 0 <= x && x <= u32::MAX {
                x as u32
            } else {
                0
            },
            Err(_) => 0,
        }
    }

    fn evalv<V: Variables>(expression: &Expression, variables: &V) -> (res: Self) {
        let out = expression.evaluate(variables);
        assert(evaluates(expression.term(), expression.source@, *variables, outcome(out)));
        match out {
            Ok(x) => if 0 <= x && x <= u32::MAX as i64 {
                x as u32
            } else {
                0
            },
            Err(_) => 0,
        }
    }
}

impl ExpressionResult for Result<u64, Error> {
    /// The value, or why there is none: a value out of the range of `u64` is an error.
    open spec fn evaluated_as(out: Result<Integer, Fault>, res: Self) -> bool {
        match out {
            Ok(x) => if 0 <= x {
                res == Ok::<u64, Error>(x as u64)
            } else {
                res matches Err(Error::OutOfRange(y, kind)) && y == x && kind@ == "u64"@
            },
            Err(f) => res matches Err(e) && e.fault() == f,
        }
    }

    fn evalv<V: Variables>(expression: &Expression, variables: &V) -> (res: Self) {
        let out = expression.evaluate(variables);
        assert(evaluates(expression.term(), expression.source@, *variables, outcome(out)));
        match out {
            Ok(x) => if 0 <= x {
                Ok(x as u64)
            } else {
                Err(Error::OutOfRange(x, "u64"))
            },
            Err(e) => Err(e),
        }
    }
}

impl ExpressionResult for u64 {
    /// The value, or 0 where there is none or it is out of the range of `u64`.
    open spec fn evaluated_as(out: Result<Integer, Fault>, res: Self) -> bool {
        res == match out {
            Ok(x) => if 0 <= x {
                x as u64
            } else {
                0
            },
            Err(_) => 0,
        }
    }

    fn evalv<V: Variables>(expression: &Expression, variables: &V) -> (res: Self) {
        let out = expression.evaluate(variables);
        assert(evaluates(expression.term(), expression.source@, *variables, outcome(out)));
        match out {
            Ok(x) => if 0 <= x {
                x as u64
            } else {
                0
            },
            Err(_) => 0,
        }
    }
}

impl ExpressionResult for Result<u128, Error> {
    /// The value, or why there is none: a value out of the range of `u128` is an error.
    open spec fn evaluated_as(out: Result<Integer, Fault>, res: Self) -> bool {
        match out {
            Ok(x) => if 0 <= x {
                res == Ok::<u128, Error>(x as u128)
            } else {
                res matches Err(Error::OutOfRange(y, kind)) && y == x && kind@ == "u128"@
            },
            Err(f) => res matches Err(e) && e.fault() == f,
        }
    }

    fn evalv<V: Variables>(expression: &Expression, variables: &V) -> (res: Self) {
        let out = expression.evaluate(variables);
        assert(evaluates(expression.term(), expression.source@, *variables, outcome(out)));
        match out {
            Ok(x) => if 0 <= x {
                Ok(x as u128)
            } else {
                Err(Error::OutOfRange(x, "u128"))
            },
            Err(e) => Err(e),
        }
    }
}

impl ExpressionResult for u128 {
    /// The value, or 0 where there is none or it is out of the range of `u128`.
    open spec fn evaluated_as(out: Result<Integer, Fault>, res: Self) -> bool {
        res == match out {
            Ok(x) => if 0 <= x {
                x as u128
            } else {
                0
            },
            Err(_) => 0,
        }
    }

    fn evalv<V: Variables>(expression: &Expression, variables: &V) -> (res: Self) {
        let out = expression.evaluate(variables);
        assert(evaluates(expression.term(), expression.source@, *variables, outcome(out)));
        match out {
            Ok(x) => if 0 <= x {
                x as u128
            } else {
                0
            },
            Err(_) => 0,
        }
    }
}

impl ExpressionResult for Result<i8, Error> {
    /// The value, or why there is none: a value out of the range of `i8` is an error.
    open spec fn evaluated_as(out: Result<Integer, Fault>, res: Self) -> bool {
        match out {
            Ok(x) => if i8::MIN <= x && x <= i8::MAX {
                res == Ok::<i8, Error>(x as i8)
            } else {
                res matches Err(Error::OutOfRange(y, kind)) && y == x && kind@ == "i8"@
            },
            Err(f) => res matches Err(e) && e.fault() == f,
        }
    }

    fn evalv<V: Variables>(expression: &Expression, variables: &V) -> (res: Self) {
        let out = expression.evaluate(variables);
        assert(evaluates(expression.term(), expression.source@, *variables, outcome(out)));
        match out {
            Ok(x) => if i8::MIN as i64 <= x && x <= i8::MAX as i64 {
                Ok(x as i8)
            } else {
                Err(Error::OutOfRange(x, "i8"))
            },
            Err(e) => Err(e),
        }
    }
}

impl ExpressionResult for i8 {
    /// The value, or 0 where there is none or it is out of the range of `i8`.
    open spec fn evaluated_as(out: Result<Integer, Fault>, res: Self) -> bool {
        res == match out {
            Ok(x) => if i8::MIN <= x && x <= i8::MAX {
                x as i8
            } else {
                0
            },
            Err(_) => 0,
        }
    }

    fn evalv<V: Variables>(expression: &Expression, variables: &V) -> (res: Self) {
        let out = expression.evaluate(variables);
        assert(evaluates(expression.term(), expression.source@, *variables, outcome(out)));
        match out {
            Ok(x) => if i8::MIN as i64 <= x && x <= i8::MAX as i64 {
                x as i8
            } else {
                0
            },
            Err(_) => 0,
        }
    }
}

impl ExpressionResult for Result<i16, Error> {
    /// The value, or why there is none: a value out of the range of `i16` is an error.
    open spec fn evaluated_as(out: Result<Integer, Fault>, res: Self) -> bool {
        match out {
            Ok(x) => if i16::MIN <= x && x <= i16::MAX {
                res == Ok::<i16, Error>(x as i16)
            } else {
                res matches Err(Error::OutOfRange(y, kind)) && y == x && kind@ == "i16"@
            },
            Err(f) => res matches Err(e) && e.fault() == f,
        }
    }

    fn evalv<V: Variables>(expression: &Expression, variables: &V) -> (res: Self) {
        let out = expression.evaluate(variables);
        assert(evaluates(expression.term(), expression.source@, *variables, outcome(out)));
        match out {
            Ok(x) => if i16::MIN as i64 <= x && x <= i16::MAX as i64 {
                Ok(x as i16)
            } else {
                Err(Error::OutOfRange(x, "i16"))
            },
            Err(e) => Err(e),
        }
    }
}

impl ExpressionResult for i16 {
    /// The value, or 0 where there is none or it is out of the range of `i16`.
    open spec fn evaluated_as(out: Result<Integer, Fault>, res: Self) -> bool {
        res == match out {
            Ok(x) => if i16::MIN <= x && x <= i16::MAX {
                x as i16
            } else {
                0
            },
            Err(_) => 0,
        }
    }

    fn evalv<V: Variables>(expression: &Expression, variables: &V) -> (res: Self) {
        let out = expression.evaluate(variables);
        assert(evaluates(expression.term(), expression.source@, *variables, outcome(out)));
        match out {
            Ok(x) => if i16::MIN as i64 <= x && x <= i16::MAX as i64 {
                x as i16
            } else {
                0
            },
            Err(_) => 0,
        }
    }
}

impl ExpressionResult for Result<i32, Error> {
    /// The value, or why there is none: a value out of the range of `i32` is an error.
    open spec fn evaluated_as(out: Result<Integer, Fault>, res: Self) -> bool {
        match out {
            Ok(x) => if i32::MIN <= x && x <= i32::MAX {
                res == Ok::<i32, Error>(x as i32)
            } else {
                res matches Err(Error::OutOfRange(y, kind)) && y == x && kind@ == "i32"@
            },
            Err(f) => res matches Err(e) && e.fault() == f,
        }
    }

    fn evalv<V: Variables>(expression: &Expression, variables: &V) -> (res: Self) {
        let out = expression.evaluate(variables);
        assert(evaluates(expression.term(), expression.source@, *variables, outcome(out)));
        match out {
            Ok(x) => if i32::MIN as i64 <= x && x <= i32::MAX as i64 {
                Ok(x as i32)
            } else {
                Err(Error::OutOfRange(x, "i32"))
            },
            Err(e) => Err(e),
        }
    }
}

impl ExpressionResult for i32 {
    /// The value, or 0 where there is none or it is out of the range of `i32`.
    open spec fn evaluated_as(out: Result<Integer, Fault>, res: Self) -> bool {
        res == match out {
            Ok(x) => if i32::MIN <= x && x <= i32::MAX {
                x as i32
            } else {
                0
            },
            Err(_) => 0,
        }
    }

    fn evalv<V: Variables>(expression: &Expression, variables: &V) -> (res: Self) {
        let out = expression.evaluate(variables);
        assert(evaluates(expression.term(), expression.source@, *variables, outcome(out)));
        match out {
            Ok(x) => if i32::MIN as i64 <= x && x <= i32::MAX as i64 {
                x as i32
            } else {
                0
            },
            Err(_) => 0,
        }
    }
}

impl ExpressionResult for Result<i64, Error> {
    /// The value, or why there is none.
    open spec fn evaluated_as(out: Result<Integer, Fault>, res: Self) -> bool {
        match out {
            Ok(x) => res == Ok::<i64, Error>(x as i64),
            Err(f) => res matches Err(e) && e.fault() == f,
        }
    }

    fn evalv<V: Variables>(expression: &Expression, variables: &V) -> (res: Self) {
        let out = expression.evaluate(variables);
        assert(evaluates(expression.term(), expression.source@, *variables, outcome(out)));
        match out {
            Ok(x) => Ok(x as i64),
            Err(e) => Err(e),
        }
    }
}

impl ExpressionResult for i64 {
    /// The value, or 0 where there is none.
    open spec fn evaluated_as(out: Result<Integer, Fault>, res: Self) -> bool {
        res == match out {
            Ok(x) => x as i64,
            Err(_) => 0,
        }
    }

    fn evalv<V: Variables>(expression: &Expression, variables: &V) -> (res: Self) {
        let out = expression.evaluate(variables);
        assert(evaluates(expression.term(), expression.source@, *variables, outcome(out)));
        match out {
            Ok(x) => x as i64,
            Err(_) => 0,
        }
    }
}

impl ExpressionResult for Result<i128, Error> {
    /// The value, or why there is none.
    open spec fn evaluated_as(out: Result<Integer, Fault>, res: Self) -> bool {
        match out {
            Ok(x) => res == Ok::<i128, Error>(x as i128),
            Err(f) => res matches Err(e) && e.fault() == f,
        }
    }

    fn evalv<V: Variables>(expression: &Expression, variables: &V) -> (res: Self) {
        let out = expression.evaluate(variables);
        assert(evaluates(expression.term(), expression.source@, *variables, outcome(out)));
        match out {
            Ok(x) => Ok(x as i128),
            Err(e) => Err(e),
        }
    }
}

impl ExpressionResult for i128 {
    /// The value, or 0 where there is none.
    open spec fn evaluated_as(out: Result<Integer, Fault>, res: Self) -> bool {
        res == match out {
            Ok(x) => x as i128,
            Err(_) => 0,
        }
    }

    fn evalv<V: Variables>(expression: &Expression, variables: &V) -> (res: Self) {
        let out = expression.evaluate(variables);
        assert(evaluates(expression.term(), expression.source@, *variables, outcome(out)));
        match out {
            Ok(x) => x as i128,
            Err(_) => 0,
        }
    }
}

/// An evaluation read into an integer type keeps its value: a result that is not 0 (for the
/// plain types) or that is `Ok` (for the `Result` types) is exactly the value the expression
/// evaluated to, never that value wrapped around into the type; and a value that lies in the
/// range of the type is read as itself.
pub proof fn lemma_results_keep_their_value(out: Result<Integer, Fault>)
    ensures
        forall|r: u8|
            #[trigger] <u8 as ExpressionResult>::evaluated_as(out, r) ==> (r != 0 ==> out is Ok && out->Ok_0 == r)
                && (out is Ok && 0 <= out->Ok_0 <= u8::MAX ==> r == out->Ok_0),
        forall|r: Result<u8, Error>|
            #[trigger] <Result<u8, Error> as ExpressionResult>::evaluated_as(out, r) ==> (r is Ok ==> out is Ok
                && out->Ok_0 == r->Ok_0) && (out is Ok && 0 <= out->Ok_0 <= u8::MAX ==> r is Ok && r->Ok_0 == out->Ok_0),
        forall|r: u16|
            #[trigger] <u16 as ExpressionResult>::evaluated_as(out, r) ==> (r != 0 ==> out is Ok && out->Ok_0 == r)
                && (out is Ok && 0 <= out->Ok_0 <= u16::MAX ==> r == out->Ok_0),
        forall|r: Result<u16, Error>|
            #[trigger] <Result<u16, Error> as ExpressionResult>::evaluated_as(out, r) ==> (r is Ok ==> out is Ok
                && out->Ok_0 == r->Ok_0) && (out is Ok && 0 <= out->Ok_0 <= u16::MAX ==> r is Ok && r->Ok_0 == out->Ok_0),
        forall|r: u32|
            #[trigger] <u32 as ExpressionResult>::evaluated_as(out, r) ==> (r != 0 ==> out is Ok && out->Ok_0 == r)
                && (out is Ok && 0 <= out->Ok_0 <= u32::MAX ==> r == out->Ok_0),
        forall|r: Result<u32, Error>|
            #[trigger] <Result<u32, Error> as ExpressionResult>::evaluated_as(out, r) ==> (r is Ok ==> out is Ok
                && out->Ok_0 == r->Ok_0) && (out is Ok && 0 <= out->Ok_0 <= u32::MAX ==> r is Ok && r->Ok_0 == out->Ok_0),
        forall|r: u64|
            #[trigger] <u64 as ExpressionResult>::evaluated_as(out, r) ==> (r != 0 ==> out is Ok && out->Ok_0 == r)
                && (out is Ok && 0 <= out->Ok_0 ==> r == out->Ok_0),
        forall|r: Result<u64, Error>|
            #[trigger] <Result<u64, Error> as ExpressionResult>::evaluated_as(out, r) ==> (r is Ok ==> out is Ok
                && out->Ok_0 == r->Ok_0) && (out is Ok && 0 <= out->Ok_0 ==> r is Ok && r->Ok_0 == out->Ok_0),
        forall|r: u128|
            #[trigger] <u128 as ExpressionResult>::evaluated_as(out, r) ==> (r != 0 ==> out is Ok && out->Ok_0 == r)
                && (out is Ok && 0 <= out->Ok_0 ==> r == out->Ok_0),
        forall|r: Result<u128, Error>|
            #[trigger] <Result<u128, Error> as ExpressionResult>::evaluated_as(out, r) ==> (r is Ok ==> out is Ok
                && out->Ok_0 == r->Ok_0) && (out is Ok && 0 <= out->Ok_0 ==> r is Ok && r->Ok_0 == out->Ok_0),
        forall|r: i8|
            #[trigger] <i8 as ExpressionResult>::evaluated_as(out, r) ==> (r != 0 ==> out is Ok && out->Ok_0 == r)
                && (out is Ok && i8::MIN <= out->Ok_0 <= i8::MAX ==> r == out->Ok_0),
        forall|r: Result<i8, Error>|
            #[trigger] <Result<i8, Error> as ExpressionResult>::evaluated_as(out, r) ==> (r is Ok ==> out is Ok
                && out->Ok_0 == r->Ok_0) && (out is Ok && i8::MIN <= out->Ok_0 <= i8::MAX ==> r is Ok && r->Ok_0 == out->Ok_0),
        forall|r: i16|
            #[trigger] <i16 as ExpressionResult>::evaluated_as(out, r) ==> (r != 0 ==> out is Ok && out->Ok_0 == r)
                && (out is Ok && i16::MIN <= out->Ok_0 <= i16::MAX ==> r == out->Ok_0),
        forall|r: Result<i16, Error>|
            #[trigger] <Result<i16, Error> as ExpressionResult>::evaluated_as(out, r) ==> (r is Ok ==> out is Ok
                && out->Ok_0 == r->Ok_0) && (out is Ok && i16::MIN <= out->Ok_0 <= i16::MAX ==> r is Ok && r->Ok_0 == out->Ok_0),
        forall|r: i32|
            #[trigger] <i32 as ExpressionResult>::evaluated_as(out, r) ==> (r != 0 ==> out is Ok && out->Ok_0 == r)
                && (out is Ok && i32::MIN <= out->Ok_0 <= i32::MAX ==> r == out->Ok_0),
        forall|r: Result<i32, Error>|
            #[trigger] <Result<i32, Error> as ExpressionResult>::evaluated_as(out, r) ==> (r is Ok ==> out is Ok
                && out->Ok_0 == r->Ok_0) && (out is Ok && i32::MIN <= out->Ok_0 <= i32::MAX ==> r is Ok && r->Ok_0 == out->Ok_0),
        forall|r: i64|
            #[trigger] <i64 as ExpressionResult>::evaluated_as(out, r) ==> (r != 0 ==> out is Ok && out->Ok_0 == r)
                && (out is Ok ==> r == out->Ok_0),
        forall|r: Result<i64, Error>|
            #[trigger] <Result<i64, Error> as ExpressionResult>::evaluated_as(out, r) ==> (r is Ok ==> out is Ok
                && out->Ok_0 == r->Ok_0) && (out is Ok ==> r is Ok && r->Ok_0 == out->Ok_0),
        forall|r: i128|
            #[trigger] <i128 as ExpressionResult>::evaluated_as(out, r) ==> (r != 0 ==> out is Ok && out->Ok_0 == r)
                && (out is Ok ==> r == out->Ok_0),
        forall|r: Result<i128, Error>|
            #[trigger] <Result<i128, Error> as ExpressionResult>::evaluated_as(out, r) ==> (r is Ok ==> out is Ok
                && out->Ok_0 == r->Ok_0) && (out is Ok ==> r is Ok && r->Ok_0 == out->Ok_0),
{
}

/// The spans of the variables of a term, from left to right.
pub open spec fn spans_of(t: Term) -> Seq<(usize, usize)>
    decreases t,
{
    match t {
        Term::Leaf(Prim::Variable(a, b)) => seq![(a, b)],
        Term::Leaf(_) => Seq::empty(),
        Term::Binary(_, l, r) => spans_of(*l) + spans_of(*r),
        Term::Constant(_, x, _) => spans_of(*x),
    }
}

/// How a source of `len` characters is shown, from `last` on, around the variable spans:
/// each stretch before a variable plainly, each variable in its color (`true`), and what
/// follows the last one plainly; empty stretches are left out.
pub open spec fn segments_of(spans: Seq<(usize, usize)>, last: int, len: int) -> Seq<(usize, usize, bool)>
    decreases spans.len(),
{
    if spans.len() == 0 {
        if last != len { seq![(last as usize, len as usize, false)] } else { Seq::empty() }
    } else {
        let (start, end) = spans[0];
        (if last < start { seq![(last as usize, start, false)] } else { Seq::empty() }) + (if start < end {
            seq![(start, end, true)]
        } else {
            Seq::empty()
        }) + segments_of(spans.skip(1), end as int, len)
    }
}

impl Expression {
    fn collect_spans(&self, op: Operation, bound: usize, spans: &mut Vec<(usize, usize)>)
        requires
            self.well_formed(),
            bound <= self.leaves@.len(),
            refers_below(op, bound as int),
        ensures
            final(spans)@ == old(spans)@ + spans_of(term_of(self.leaves@, op, bound as nat)),
        decreases bound,
    {
        let ghost before = spans@;
        match op {
            Operation::Variable(a, b) => {
                spans.push((a, b));
            },
            Operation::Integer(_) | Operation::Roll(_, _) => {},
            Operation::Add(a, b) | Operation::Sub(a, b) | Operation::Mul(a, b) | Operation::Div(a, b) => {
                assert(binary_parts(op) matches Some((_, x, y)) && x == a && y == b);
                self.collect_spans(self.leaves[a], a, spans);
                self.collect_spans(self.leaves[b], b, spans);
            },
            Operation::AddC(x, _) | Operation::SubC(x, _) | Operation::MulC(x, _) | Operation::DivC(x, _) => {
                assert(constant_parts(op) matches Some((_, y, _)) && y == x);
                self.collect_spans(self.leaves[x], x, spans);
            },
        }
    }

    /// The spans of the variables, from left to right.
    pub fn variable_spans(&self) -> (res: Vec<(usize, usize)>)
        requires
            self.well_formed(),
        ensures
            res@ == spans_of(self.term()),
    {
        let mut spans = Vec::new();
        self.collect_spans(self.root, self.leaves.len(), &mut spans);
        spans
    }

    /// How the source is shown: the stretches of it in order, each with whether it is a
    /// variable, to be shown in its color.
    pub fn label_segments(&self) -> (res: Vec<(usize, usize, bool)>)
        requires
            self.well_formed(),
        ensures
            res@ == segments_of(spans_of(self.term()), 0, self.source@.len() as int),
    {
        let spans = self.variable_spans();
        let len = self.source.as_str().unicode_len();
        let mut res: Vec<(usize, usize, bool)> = Vec::new();
        let mut last: usize = 0;
        let mut i: usize = 0;
        assert(spans@.skip(0) == spans@);
        assert(res@ + segments_of(spans@, 0, len as int) == segments_of(spans@, 0, len as int));
        while i < spans.len()
            invariant
                0 <= i <= spans@.len(),
                len == self.source@.len(),
                res@ + segments_of(spans@.skip(i as int), last as int, len as int) == segments_of(spans@, 0, len as int),
            decreases spans@.len() - i,
        {
            let (start, end) = spans[i];
            let ghost rest = spans@.skip(i as int);
            assert(rest[0] == (start, end));
            assert(rest.skip(1) == spans@.skip(i + 1));
            if last < start {
                res.push((last, start, false));
            }
            if start < end {
                res.push((start, end, true));
            }
            last = end;
            i += 1;
        }
        if last != len {
            res.push((last, len, false));
        }
        assert(spans@.skip(i as int).len() == 0);
        res
    }
}

} // verus!
