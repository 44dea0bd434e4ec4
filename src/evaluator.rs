use vstd::prelude::*;

use crate::token::{bin_op_of, BinOp, ErrorKind, Expression, Term, TermView, Token, TokenView};

verus! {

/// An entry of the operator stack: an operator symbol, or the sentinel that
/// marks an open parenthesis.
#[derive(Debug, Clone, Copy, PartialEq, Eq, Structural)]
pub enum StackEntry {
    Open,
    Op(char),
}

/// The state of one evaluation: operand stack, operator stack, and whether
/// the last operator still waits for its right-hand operand.
pub struct EvalState {
    pub operands: Seq<TermView>,
    pub operators: Seq<StackEntry>,
    pub pending: bool,
}

/// The state before the first token.
pub open spec fn initial_state() -> EvalState {
    EvalState { operands: Seq::empty(), operators: Seq::empty(), pending: false }
}

/// The views of a stack of terms.
pub open spec fn terms_view(terms: Seq<Term>) -> Seq<TermView> {
    terms.map_values(|t: Term| t@)
}

/// The term that applies `op` to `left` and `right`.
pub open spec fn combine(left: TermView, right: TermView, op: char) -> Result<TermView, ErrorKind> {
    match bin_op_of(op) {
        Some(b) => Ok(TermView::Apply(b, Box::new(left), Box::new(right))),
        None => Err(ErrorKind::InvalidOperator(op)),
    }
}

/// Replaces the two topmost operands (the topmost being the right one) by
/// their combination under `op`.
pub open spec fn reduce_top(operands: Seq<TermView>, op: char) -> Result<Seq<TermView>, ErrorKind> {
    let n = operands.len();
    if n < 2 {
        Err(ErrorKind::MalformedExpression)
    } else {
        match combine(operands[n - 2], operands[n - 1], op) {
            Ok(t) => Ok(operands.take(n - 2).push(t)),
            Err(e) => Err(e),
        }
    }
}

/// Reduces with the operators above the topmost open-parenthesis sentinel,
/// from the top down, then removes that sentinel.
pub open spec fn close_group(operands: Seq<TermView>, operators: Seq<StackEntry>) -> Result<
    (Seq<TermView>, Seq<StackEntry>),
    ErrorKind,
>
    decreases operators.len(),
{
    if operators.len() == 0 {
        Err(ErrorKind::UnexpectedRightParenthesis)
    } else {
        match operators.last() {
            StackEntry::Open => Ok((operands, operators.drop_last())),
            StackEntry::Op(p) => match reduce_top(operands, p) {
                Ok(rest) => close_group(rest, operators.drop_last()),
                Err(e) => Err(e),
            },
        }
    }
}

/// The effect of one token on the evaluation state.
pub open spec fn step(s: EvalState, t: TokenView) -> Result<EvalState, ErrorKind> {
    match t {
        TokenView::Number(d) => Ok(
            EvalState {
                operands: s.operands.push(TermView::Number(d)),
                operators: s.operators,
                pending: s.pending,
            },
        ),
        TokenView::Operator(o) => {
            if s.operands.len() == 0 {
                Err(ErrorKind::OperatorWithoutOperands(o))
            } else if !s.pending {
                Ok(EvalState { operands: s.operands, operators: s.operators.push(StackEntry::Op(o)), pending: true })
            } else if s.operators.len() == 0 {
                Err(ErrorKind::MalformedExpression)
            } else {
                match s.operators.last() {
                    StackEntry::Open => Err(ErrorKind::MalformedExpression),
                    StackEntry::Op(p) => match reduce_top(s.operands, p) {
                        Ok(rest) => Ok(
                            EvalState {
                                operands: rest,
                                operators: s.operators.drop_last().push(StackEntry::Op(o)),
                                pending: true,
                            },
                        ),
                        Err(e) => Err(e),
                    },
                }
            }
        },
        TokenView::LeftParen => Ok(
            EvalState { operands: s.operands, operators: s.operators.push(StackEntry::Open), pending: false },
        ),
        TokenView::RightParen => {
            if !s.operators.contains(StackEntry::Open) {
                Err(ErrorKind::UnexpectedRightParenthesis)
            } else {
                match close_group(s.operands, s.operators) {
                    Ok((operands, operators)) => Ok(EvalState { operands, operators, pending: false }),
                    Err(e) => Err(e),
                }
            }
        },
    }
}

/// The state after reading `tokens` from left to right, or the first failure.
pub open spec fn run(tokens: Seq<TokenView>) -> Result<EvalState, ErrorKind>
    decreases tokens.len(),
{
    if tokens.len() == 0 {
        Ok(initial_state())
    } else {
        match run(tokens.drop_last()) {
            Ok(s) => step(s, tokens.last()),
            Err(e) => Err(e),
        }
    }
}

/// Reduces pairs of operands with the topmost operators until one operand is
/// left; operators left over after that are not used.
pub open spec fn drain(operands: Seq<TermView>, operators: Seq<StackEntry>) -> Result<TermView, ErrorKind>
    decreases operators.len(),
{
    if operands.len() == 1 {
        Ok(operands[0])
    } else if operands.len() == 0 {
        Err(ErrorKind::MalformedExpression)
    } else if operators.len() == 0 {
        Err(ErrorKind::TooManyOperands)
    } else {
        match operators.last() {
            StackEntry::Open => Err(ErrorKind::UnmatchedLeftParenthesis),
            StackEntry::Op(p) => match reduce_top(operands, p) {
                Ok(rest) => drain(rest, operators.drop_last()),
                Err(e) => Err(e),
            },
        }
    }
}

/// The result once every token has been read.
pub open spec fn finish(s: EvalState) -> Result<TermView, ErrorKind> {
    if s.operators.contains(StackEntry::Open) {
        Err(ErrorKind::UnmatchedLeftParenthesis)
    } else {
        drain(s.operands, s.operators)
    }
}

/// What evaluating `tokens` yields.
pub open spec fn evaluation(tokens: Seq<TokenView>) -> Result<TermView, ErrorKind> {
    match run(tokens) {
        Ok(s) => finish(s),
        Err(e) => Err(e),
    }
}

/// The view of an evaluation outcome.
pub open spec fn outcome_view(r: Result<Term, ErrorKind>) -> Result<TermView, ErrorKind> {
    match r {
        Ok(t) => Ok(t@),
        Err(e) => Err(e),
    }
}

/// Once evaluation has failed, reading more tokens keeps the same failure.
pub proof fn lemma_run_error_sticks(tokens: Seq<TokenView>, k: int, m: int)
    requires
        0 <= k <= m <= tokens.len(),
        run(tokens.take(k)) is Err,
    ensures
        run(tokens.take(m)) == run(tokens.take(k)),
    decreases m - k,
{
    if m > k {
        lemma_run_error_sticks(tokens, k, m - 1);
        assert(tokens.take(m).drop_last() =~= tokens.take(m - 1));
    }
}

/// Whether `operators` holds an open-parenthesis sentinel.
fn has_open(operators: &Vec<StackEntry>) -> (r: bool)
    ensures
        r == operators@.contains(StackEntry::Open),
{
    let mut i: usize = 0;
    while i < operators.len()
        invariant
            i <= operators@.len(),
            forall|j: int| 0 <= j < i ==> operators@[j] != StackEntry::Open,
        decreases operators@.len() - i,
    {
        if operators[i] == StackEntry::Open {
            return true;
        }
        i = i + 1;
    }
    false
}

/// Pops the two topmost operands and pushes their combination under `op`.
fn reduce(operands: &mut Vec<Term>, op: char) -> (r: Result<(), ErrorKind>)
    ensures
        match reduce_top(terms_view(old(operands)@), op) {
            Ok(rest) => r is Ok && terms_view(final(operands)@) == rest,
            Err(e) => r == Err::<(), ErrorKind>(e),
        },
{
    let ghost before = terms_view(operands@);
    if operands.len() < 2 {
        return Err(ErrorKind::MalformedExpression);
    }
    let right = operands.pop().unwrap();
    let left = operands.pop().unwrap();
    let ghost n = before.len();
    assert(terms_view(operands@) =~= before.take(n - 2));
    match Expression::apply_operator(left, right, op) {
        Ok(t) => {
            operands.push(t);
            assert(terms_view(operands@) =~= before.take(n - 2).push(t@));
            Ok(())
        },
        Err(e) => Err(e),
    }
}

/// Runs the reductions of a closing parenthesis.
fn close_group_exec(operands: &mut Vec<Term>, operators: &mut Vec<StackEntry>) -> (r: Result<(), ErrorKind>)
    ensures
        match close_group(terms_view(old(operands)@), old(operators)@) {
            Ok((a, b)) => r is Ok && terms_view(final(operands)@) == a && final(operators)@ == b,
            Err(e) => r == Err::<(), ErrorKind>(e),
        },
{
    let ghost goal = close_group(terms_view(operands@), operators@);
    loop
        invariant
            goal == close_group(terms_view(old(operands)@), old(operators)@),
            close_group(terms_view(operands@), operators@) == goal,
        decreases operators@.len(),
    {
        let ghost ops = operators@;
        match operators.pop() {
            None => {
                return Err(ErrorKind::UnexpectedRightParenthesis);
            },
            Some(StackEntry::Open) => {
                assert(operators@ =~= ops.drop_last());
                return Ok(());
            },
            Some(StackEntry::Op(p)) => {
                assert(operators@ =~= ops.drop_last());
                let r = reduce(operands, p);
                if r.is_err() {
                    return r;
                }
            },
        }
    }
}

/// Reduces until one operand is left, as in [`drain`].
fn drain_exec(operands: &mut Vec<Term>, operators: &mut Vec<StackEntry>) -> (r: Result<Term, ErrorKind>)
    ensures
        outcome_view(r) == drain(terms_view(old(operands)@), old(operators)@),
{
    let ghost goal = drain(terms_view(operands@), operators@);
    loop
        invariant
            goal == drain(terms_view(old(operands)@), old(operators)@),
            drain(terms_view(operands@), operators@) == goal,
        decreases operators@.len(),
    {
        if operands.len() == 1 {
            assert(terms_view(operands@)[0] == operands@[0]@);
            let t = operands.pop().unwrap();
            return Ok(t);
        }
        if operands.len() == 0 {
            return Err(ErrorKind::MalformedExpression);
        }
        let ghost ops = operators@;
        match operators.pop() {
            None => {
                return Err(ErrorKind::TooManyOperands);
            },
            Some(StackEntry::Open) => {
                return Err(ErrorKind::UnmatchedLeftParenthesis);
            },
            Some(StackEntry::Op(p)) => {
                assert(operators@ =~= ops.drop_last());
                let r = reduce(operands, p);
                if let Err(e) = r {
                    return Err(e);
                }
            },
        }
    }
}

/// Reduces the tokens, with an operand stack, an operator stack and a
/// pending-operator flag, to the term whose value is the result.
///
/// An operator right after a number is held back; a second operator that
/// comes while one is held back first reduces with the held one, so that
/// operators without parentheses apply strictly from left to right. A `)`
/// reduces its group. What is left at the end is reduced from the top of
/// the stacks down.
pub fn evaluate(expr: &Expression) -> (r: Result<Term, ErrorKind>)
    ensures
        outcome_view(r) == evaluation(expr@),
{
    let mut operators: Vec<StackEntry> = Vec::new();
    let mut operands: Vec<Term> = Vec::new();
    let mut pending = false;
    let n = expr.tokens.len();
    let mut i: usize = 0;
    proof {
        assert(expr@.take(0) =~= Seq::<TokenView>::empty());
        assert(terms_view(operands@) =~= Seq::<TermView>::empty());
    }
    while i < n
        invariant
            n == expr.tokens@.len(),
            n == expr@.len(),
            i <= n,
            run(expr@.take(i as int)) == Ok::<EvalState, ErrorKind>(
                EvalState { operands: terms_view(operands@), operators: operators@, pending },
            ),
        decreases n - i,
    {
        let ghost s = EvalState { operands: terms_view(operands@), operators: operators@, pending };
        proof {
            assert(expr@.take(i + 1).drop_last() =~= expr@.take(i as int));
            assert(expr@.take(i + 1).last() == expr.tokens@[i as int]@);
        }
        match &expr.tokens[i] {
            Token::Number(d) => {
                operands.push(Term::Number(d.clone()));
                assert(terms_view(operands@) =~= s.operands.push(TermView::Number(d@)));
            },
            Token::Operator(o) => {
                if operands.len() == 0 {
                    proof {
                        lemma_run_error_sticks(expr@, i + 1, n as int);
                        assert(expr@.take(n as int) =~= expr@);
                    }
                    return Err(ErrorKind::OperatorWithoutOperands(*o));
                }
                if !pending {
                    operators.push(StackEntry::Op(*o));
                    pending = true;
                } else {
                    let ghost ops = operators@;
                    let top = operators.pop();
                    let failure = match top {
                        Some(StackEntry::Op(p)) => {
                            assert(operators@ =~= ops.drop_last());
                            match reduce(&mut operands, p) {
                                Ok(()) => None,
                                Err(e) => Some(e),
                            }
                        },
                        _ => Some(ErrorKind::MalformedExpression),
                    };
                    if let Some(e) = failure {
                        proof {
                            lemma_run_error_sticks(expr@, i + 1, n as int);
                            assert(expr@.take(n as int) =~= expr@);
                        }
                        return Err(e);
                    }
                    operators.push(StackEntry::Op(*o));
                }
            },
            Token::LeftParen => {
                operators.push(StackEntry::Open);
                pending = false;
            },
            Token::RightParen => {
                let failure = if !has_open(&operators) {
                    Some(ErrorKind::UnexpectedRightParenthesis)
                } else {
                    match close_group_exec(&mut operands, &mut operators) {
                        Ok(()) => None,
                        Err(e) => Some(e),
                    }
                };
                if let Some(e) = failure {
                    proof {
                        lemma_run_error_sticks(expr@, i + 1, n as int);
                        assert(expr@.take(n as int) =~= expr@);
                    }
                    return Err(e);
                }
                pending = false;
            },
        }
        i = i + 1;
    }
    assert(expr@.take(n as int) =~= expr@);
    if has_open(&operators) {
        return Err(ErrorKind::UnmatchedLeftParenthesis);
    }
    drain_exec(&mut operands, &mut operators)
}

impl Expression {
    /// The term for `left op right`; fails with `InvalidOperator` when `op`
    /// is not one of `+ - * /`.
    pub fn apply_operator(left: Term, right: Term, op: char) -> (r: Result<Term, ErrorKind>)
        ensures
            outcome_view(r) == combine(left@, right@, op),
    {
        let b = if op == '+' {
            BinOp::Add
        } else if op == '-' {
            BinOp::Sub
        } else if op == '*' {
            BinOp::Mul
        } else if op == '/' {
            BinOp::Div
        } else {
            return Err(ErrorKind::InvalidOperator(op));
        };
        Ok(Term::Apply(b, Box::new(left), Box::new(right)))
    }
}

} // verus!
