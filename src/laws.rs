use vstd::prelude::*;

use crate::evaluator::{close_group, evaluation, finish, run, step, EvalState, StackEntry};
use crate::token::{Expression, bin_op_of, decimal_value, digit_value, is_literal, ErrorKind, TermView, TokenView};
use crate::tokenizer::{is_accepted, is_digit, scan, tokens_of};

verus! {

/// The decimal digit for `k < 10`.
pub open spec fn digit_char(k: nat) -> char {
    if k == 0 {
        '0'
    } else if k == 1 {
        '1'
    } else if k == 2 {
        '2'
    } else if k == 3 {
        '3'
    } else if k == 4 {
        '4'
    } else if k == 5 {
        '5'
    } else if k == 6 {
        '6'
    } else if k == 7 {
        '7'
    } else if k == 8 {
        '8'
    } else {
        '9'
    }
}

/// The decimal digits of `n`, without leading zeros.
pub open spec fn digits_of(n: nat) -> Seq<char>
    decreases n,
{
    if n < 10 {
        seq![digit_char(n)]
    } else {
        digits_of(n / 10).push(digit_char(n % 10))
    }
}

/// Digits alone leave the tokenizer with no token emitted and all of them
/// pending.
proof fn lemma_scan_digits(s: Seq<char>)
    requires
        forall|i: int| 0 <= i < s.len() ==> is_digit(#[trigger] s[i]),
    ensures
        scan(s) == Ok::<(Seq<TokenView>, Seq<char>), ErrorKind>((Seq::empty(), s)),
    decreases s.len(),
{
    if s.len() > 0 {
        let p = s.drop_last();
        assert forall|i: int| 0 <= i < p.len() implies is_digit(#[trigger] p[i]) by {
            assert(p[i] == s[i]);
        }
        lemma_scan_digits(p);
        assert(is_digit(s[s.len() - 1]));
        assert(p.push(s.last()) =~= s);
    } else {
        assert(s =~= Seq::<char>::empty());
    }
}

/// A non-empty run of digits reads as exactly one number token holding
/// those digits.
pub proof fn literal_reads_as_one_number(s: Seq<char>)
    requires
        is_literal(s),
    ensures
        tokens_of(s) == Ok::<Seq<TokenView>, ErrorKind>(seq![TokenView::Number(s)]),
{
    lemma_scan_digits(s);
    assert(Seq::<TokenView>::empty().push(TokenView::Number(s)) =~= seq![TokenView::Number(s)]);
}

/// Writing a number in decimal and reading it back gives one number token
/// whose digits denote that same number.
pub proof fn number_round_trip(n: nat)
    ensures
        is_literal(digits_of(n)),
        tokens_of(digits_of(n)) == Ok::<Seq<TokenView>, ErrorKind>(seq![TokenView::Number(digits_of(n))]),
        decimal_value(digits_of(n)) == n,
    decreases n,
{
    let d = digits_of(n);
    if n < 10 {
        assert(d.drop_last() =~= Seq::<char>::empty());
        assert(decimal_value(Seq::<char>::empty()) == 0);
        assert(digit_value(digit_char(n)) == n);
        assert(decimal_value(d) == decimal_value(d.drop_last()) * 10 + digit_value(d.last()));
    } else {
        number_round_trip(n / 10);
        let p = digits_of(n / 10);
        assert(d.drop_last() =~= p);
        assert(digit_value(digit_char(n % 10)) == n % 10);
        assert((n / 10) * 10 + n % 10 == n) by (nonlinear_arith);
        assert(d.last() == digit_char(n % 10));
        assert(decimal_value(d) == decimal_value(d.drop_last()) * 10 + digit_value(d.last()));
        assert forall|i: int| 0 <= i < d.len() implies '0' <= #[trigger] d[i] && d[i] <= '9' by {
            if i < p.len() {
                assert(d[i] == p[i]);
            }
        }
    }
    literal_reads_as_one_number(d);
}

/// The number of open-parenthesis sentinels on an operator stack.
pub open spec fn open_count(operators: Seq<StackEntry>) -> int
    decreases operators.len(),
{
    if operators.len() == 0 {
        0
    } else {
        open_count(operators.drop_last()) + if operators.last() == StackEntry::Open {
            1int
        } else {
            0int
        }
    }
}

/// The number of `(` tokens minus the number of `)` tokens.
pub open spec fn depth(tokens: Seq<TokenView>) -> int
    decreases tokens.len(),
{
    if tokens.len() == 0 {
        0
    } else {
        depth(tokens.drop_last()) + match tokens.last() {
            TokenView::LeftParen => 1int,
            TokenView::RightParen => -1int,
            _ => 0int,
        }
    }
}

proof fn lemma_open_count_contains(operators: Seq<StackEntry>)
    ensures
        open_count(operators) >= 0,
        open_count(operators) == 0 <==> !operators.contains(StackEntry::Open),
    decreases operators.len(),
{
    if operators.len() > 0 {
        let p = operators.drop_last();
        lemma_open_count_contains(p);
        if p.contains(StackEntry::Open) {
            let k = choose|k: int| 0 <= k < p.len() && p[k] == StackEntry::Open;
            assert(operators[k] == StackEntry::Open);
        }
        if operators.contains(StackEntry::Open) && operators.last() != StackEntry::Open {
            let k = choose|k: int| 0 <= k < operators.len() && operators[k] == StackEntry::Open;
            assert(p[k] == StackEntry::Open);
        }
        if operators.last() == StackEntry::Open {
            assert(operators[operators.len() - 1] == StackEntry::Open);
        }
    }
}

proof fn lemma_close_group_removes_one_open(
    operands: Seq<crate::token::TermView>,
    operators: Seq<StackEntry>,
)
    requires
        close_group(operands, operators) is Ok,
    ensures
        open_count(close_group(operands, operators)->Ok_0.1) == open_count(operators) - 1,
    decreases operators.len(),
{
    let p = operators.drop_last();
    match operators.last() {
        StackEntry::Open => {},
        StackEntry::Op(o) => {
            let rest = crate::evaluator::reduce_top(operands, o)->Ok_0;
            lemma_close_group_removes_one_open(rest, p);
        },
    }
}

proof fn lemma_step_keeps_depth(s: EvalState, t: TokenView)
    requires
        step(s, t) is Ok,
    ensures
        open_count(step(s, t)->Ok_0.operators) == open_count(s.operators) + match t {
            TokenView::LeftParen => 1int,
            TokenView::RightParen => -1int,
            _ => 0int,
        },
{
    let ops = s.operators;
    match t {
        TokenView::Operator(o) => {
            if s.pending {
                let q = ops.drop_last().push(StackEntry::Op(o));
                assert(q.drop_last() =~= ops.drop_last());
            } else {
                assert(ops.push(StackEntry::Op(o)).drop_last() =~= ops);
            }
        },
        TokenView::LeftParen => {
            assert(ops.push(StackEntry::Open).drop_last() =~= ops);
        },
        TokenView::RightParen => {
            lemma_close_group_removes_one_open(s.operands, ops);
        },
        _ => {},
    }
}

/// Along a successful run, the operator stack holds one sentinel per
/// parenthesis still open.
proof fn lemma_run_open_count(tokens: Seq<TokenView>)
    requires
        run(tokens) is Ok,
    ensures
        open_count(run(tokens)->Ok_0.operators) == depth(tokens),
    decreases tokens.len(),
{
    if tokens.len() > 0 {
        lemma_run_open_count(tokens.drop_last());
        lemma_step_keeps_depth(run(tokens.drop_last())->Ok_0, tokens.last());
    }
}

proof fn lemma_run_error_sticks_whole(tokens: Seq<TokenView>, k: int)
    requires
        0 <= k <= tokens.len(),
        run(tokens.take(k)) is Err,
    ensures
        evaluation(tokens) == Err::<crate::token::TermView, ErrorKind>(run(tokens.take(k))->Err_0),
{
    crate::evaluator::lemma_run_error_sticks(tokens, k, tokens.len() as int);
    assert(tokens.take(tokens.len() as int) =~= tokens);
}

/// An expression that starts with an operator fails with
/// `OperatorWithoutOperands` for that operator.
pub proof fn leading_operator_fails(tokens: Seq<TokenView>)
    requires
        tokens.len() > 0,
        tokens[0] is Operator,
    ensures
        evaluation(tokens) == Err::<crate::token::TermView, ErrorKind>(
            ErrorKind::OperatorWithoutOperands(tokens[0]->Operator_0),
        ),
{
    let p = tokens.take(1);
    assert(p.drop_last() =~= Seq::<TokenView>::empty());
    assert(p.last() == tokens[0]);
    assert(run(Seq::<TokenView>::empty()) == Ok::<EvalState, ErrorKind>(crate::evaluator::initial_state()));
    assert(run(p) is Err);
    lemma_run_error_sticks_whole(tokens, 1);
}

/// A `)` that closes no `(` makes evaluation fail with
/// `UnexpectedRightParenthesis`, unless it failed earlier on the tokens
/// before it.
pub proof fn unmatched_right_paren_fails(tokens: Seq<TokenView>, i: int)
    requires
        0 <= i < tokens.len(),
        tokens[i] is RightParen,
        depth(tokens.take(i)) == 0,
        run(tokens.take(i)) is Ok,
    ensures
        evaluation(tokens) == Err::<crate::token::TermView, ErrorKind>(ErrorKind::UnexpectedRightParenthesis),
{
    let p = tokens.take(i + 1);
    assert(p.drop_last() =~= tokens.take(i));
    assert(p.last() == tokens[i]);
    lemma_run_open_count(tokens.take(i));
    lemma_open_count_contains(run(tokens.take(i))->Ok_0.operators);
    lemma_run_error_sticks_whole(tokens, i + 1);
}

/// An expression that leaves a `(` unclosed never evaluates successfully:
/// where nothing failed before the end, it fails with
/// `UnmatchedLeftParenthesis`.
pub proof fn unclosed_left_paren_fails(tokens: Seq<TokenView>)
    requires
        depth(tokens) > 0,
    ensures
        evaluation(tokens) is Err,
        run(tokens) is Ok ==> evaluation(tokens) == Err::<crate::token::TermView, ErrorKind>(
            ErrorKind::UnmatchedLeftParenthesis,
        ),
{
    if run(tokens) is Ok {
        lemma_run_open_count(tokens);
        lemma_open_count_contains(run(tokens)->Ok_0.operators);
    }
}

/// Any failure of the tokenizer is an `UnexpectedCharacter`.
proof fn lemma_scan_errors(s: Seq<char>)
    ensures
        scan(s) is Err ==> scan(s)->Err_0 is UnexpectedCharacter,
    decreases s.len(),
{
    if s.len() > 0 {
        lemma_scan_errors(s.drop_last());
    }
}

/// Text that holds a character outside the notation (a letter past `f`,
/// say) fails to tokenize with `UnexpectedCharacter`.
pub proof fn rejected_character_fails(s: Seq<char>, j: int)
    requires
        0 <= j < s.len(),
        !is_accepted(s[j]),
    ensures
        tokens_of(s) is Err,
        tokens_of(s)->Err_0 is UnexpectedCharacter,
{
    let p = s.take(j + 1);
    assert(p.drop_last() =~= s.take(j));
    assert(p.last() == s[j]);
    assert(scan(p) is Err);
    crate::tokenizer::lemma_scan_error_sticks(s, j + 1, s.len() as int);
    assert(s.take(s.len() as int) =~= s);
    lemma_scan_errors(s);
}

/// Evaluation reads the token sequence and nothing else: evaluating the same
/// expression again, or an equal one, gives the same outcome.
pub proof fn evaluation_is_repeatable(a: &Expression, b: &Expression)
    requires
        a@ == b@,
    ensures
        evaluation(a@) == evaluation(b@),
{
}

/// Whether `tokens` is a number, then any number of pairs of a valid
/// operator and a number, with no parentheses.
pub open spec fn is_flat_chain(tokens: Seq<TokenView>) -> bool {
    &&& tokens.len() % 2 == 1
    &&& forall|i: int| 0 <= i < tokens.len() && i % 2 == 0 ==> #[trigger] tokens[i] is Number
    &&& forall|i: int|
        0 <= i < tokens.len() && i % 2 == 1 ==> #[trigger] tokens[i] is Operator && bin_op_of(
            tokens[i]->Operator_0,
        ) is Some
}

/// The term that applies the operators of a flat chain strictly from left to
/// right: `((n0 op1 n1) op2 n2) ...`.
pub open spec fn left_to_right(tokens: Seq<TokenView>) -> TermView
    decreases tokens.len(),
{
    if tokens.len() < 3 {
        TermView::Number(tokens[0]->Number_0)
    } else {
        TermView::Apply(
            bin_op_of(tokens[tokens.len() - 2]->Operator_0)->Some_0,
            Box::new(left_to_right(tokens.take(tokens.len() - 2))),
            Box::new(TermView::Number(tokens.last()->Number_0)),
        )
    }
}

proof fn lemma_flat_chain_prefix(tokens: Seq<TokenView>, k: int)
    requires
        is_flat_chain(tokens),
        0 <= k <= tokens.len(),
        k % 2 == 1,
    ensures
        is_flat_chain(tokens.take(k)),
{
    let p = tokens.take(k);
    assert forall|i: int| 0 <= i < p.len() && i % 2 == 0 implies #[trigger] p[i] is Number by {
        assert(p[i] == tokens[i]);
    }
    assert forall|i: int| 0 <= i < p.len() && i % 2 == 1 implies #[trigger] p[i] is Operator
        && bin_op_of(p[i]->Operator_0) is Some by {
        assert(p[i] == tokens[i]);
    }
}

/// The state after `2k + 1` tokens of a flat chain, `k >= 1`: the chain so
/// far without its last number, that number, and the last operator held
/// back.
proof fn lemma_flat_chain_run(tokens: Seq<TokenView>, k: int)
    requires
        is_flat_chain(tokens),
        1 <= k,
        2 * k + 1 == tokens.len(),
    ensures
        run(tokens) == Ok::<EvalState, ErrorKind>(
            EvalState {
                operands: seq![
                    left_to_right(tokens.take(2 * k - 1)),
                    TermView::Number(tokens[2 * k]->Number_0),
                ],
                operators: seq![StackEntry::Op(tokens[2 * k - 1]->Operator_0)],
                pending: true,
            },
        ),
    decreases k,
{
    let n = tokens.len() as int;
    assert(tokens[n - 1] is Number);
    assert(tokens[n - 2] is Operator && bin_op_of(tokens[n - 2]->Operator_0) is Some);
    let with_op = tokens.take(n - 1);
    let head = tokens.take(n - 2);
    assert(tokens.drop_last() =~= with_op);
    assert(with_op.drop_last() =~= head);
    assert(with_op.last() == tokens[n - 2]);
    lemma_flat_chain_prefix(tokens, n - 2);
    if k == 1 {
        let first = tokens.take(1);
        assert(tokens[0] is Number);
        assert(first.drop_last() =~= Seq::<TokenView>::empty());
        assert(first.last() == tokens[0]);
        assert(run(Seq::<TokenView>::empty()) == Ok::<EvalState, ErrorKind>(crate::evaluator::initial_state()));
        assert(run(first).unwrap().operands =~= seq![TermView::Number(tokens[0]->Number_0)]);
        assert(left_to_right(first) == TermView::Number(tokens[0]->Number_0));
        let s = run(with_op).unwrap();
        assert(s.operands =~= seq![left_to_right(first)]);
        assert(s.operators =~= seq![StackEntry::Op(tokens[1]->Operator_0)]);
        assert(run(tokens).unwrap().operands =~= seq![
            left_to_right(first),
            TermView::Number(tokens[2]->Number_0),
        ]);
    } else {
        lemma_flat_chain_run(head, k - 1);
        assert(head.take(2 * k - 3) =~= tokens.take(2 * k - 3));
        assert(head[2 * k - 2] == tokens[2 * k - 2]);
        assert(head[2 * k - 3] == tokens[2 * k - 3]);
        let h = head.take(2 * k - 1);
        assert(h =~= head);
        assert(left_to_right(head) == TermView::Apply(
            bin_op_of(tokens[2 * k - 3]->Operator_0)->Some_0,
            Box::new(left_to_right(tokens.take(2 * k - 3))),
            Box::new(TermView::Number(tokens[2 * k - 2]->Number_0)),
        ));
        let s0 = run(head).unwrap();
        let s1 = run(with_op).unwrap();
        assert(s0.operands.take(0).push(left_to_right(head)) =~= seq![left_to_right(head)]);
        assert(s1.operands =~= seq![left_to_right(head)]);
        assert(s1.operators =~= seq![StackEntry::Op(tokens[n - 2]->Operator_0)]);
        assert(tokens.take(2 * k - 1) =~= head);
        assert(run(tokens).unwrap().operands =~= seq![
            left_to_right(head),
            TermView::Number(tokens[2 * k]->Number_0),
        ]);
    }
}

/// Without parentheses, operators apply strictly from left to right, with
/// no precedence of `*` and `/` over `+` and `-`.
pub proof fn flat_chain_is_left_to_right(tokens: Seq<TokenView>)
    requires
        is_flat_chain(tokens),
    ensures
        evaluation(tokens) == Ok::<TermView, ErrorKind>(left_to_right(tokens)),
{
    let n = tokens.len() as int;
    if n == 1 {
        assert(tokens[0] is Number);
        assert(tokens.drop_last() =~= Seq::<TokenView>::empty());
        assert(run(Seq::<TokenView>::empty()) == Ok::<EvalState, ErrorKind>(crate::evaluator::initial_state()));
        let s = run(tokens).unwrap();
        assert(s.operands =~= seq![TermView::Number(tokens[0]->Number_0)]);
        assert(s.operators =~= Seq::<StackEntry>::empty());
        assert(!s.operators.contains(StackEntry::Open));
        assert(finish(s) == Ok::<TermView, ErrorKind>(s.operands[0]));
    } else {
        let k = (n - 1) / 2;
        lemma_flat_chain_run(tokens, k);
        let s = run(tokens).unwrap();
        assert(tokens[n - 2] is Operator && bin_op_of(tokens[n - 2]->Operator_0) is Some);
        assert(tokens.take(n - 2) =~= tokens.take(2 * k - 1));
        assert(!s.operators.contains(StackEntry::Open)) by {
            if s.operators.contains(StackEntry::Open) {
                let j = choose|j: int| 0 <= j < s.operators.len() && s.operators[j] == StackEntry::Open;
                assert(j == 0);
            }
        }
        let reduced = crate::evaluator::reduce_top(s.operands, tokens[n - 2]->Operator_0).unwrap();
        assert(tokens.last() == tokens[2 * k]);
        assert(left_to_right(tokens) == TermView::Apply(
            bin_op_of(tokens[n - 2]->Operator_0)->Some_0,
            Box::new(left_to_right(tokens.take(2 * k - 1))),
            Box::new(TermView::Number(tokens[2 * k]->Number_0)),
        ));
        assert(reduced =~= seq![left_to_right(tokens)]);
        assert(s.operators.drop_last() =~= Seq::<StackEntry>::empty());
        assert(crate::evaluator::drain(reduced, Seq::<StackEntry>::empty()) == Ok::<TermView, ErrorKind>(left_to_right(tokens)));
        assert(finish(s) == Ok::<TermView, ErrorKind>(left_to_right(tokens)));
    }
}

} // verus!
