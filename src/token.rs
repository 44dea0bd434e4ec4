use vstd::prelude::*;

verus! {

/// A lexical unit of the notation.
#[derive(Debug, Clone, PartialEq)]
pub enum Token {
    /// A non-negative integer literal, kept as its decimal digits.
    Number(Vec<char>),
    /// A binary operator symbol: one of `+ - * /` when produced by the tokenizer.
    Operator(char),
    LeftParen,
    RightParen,
}

/// The value of the decimal digit `c`.
pub open spec fn digit_value(c: char) -> int {
    (c as u32) - ('0' as u32)
}

/// Whether `d` is a non-empty run of decimal digits.
pub open spec fn is_literal(d: Seq<char>) -> bool {
    d.len() > 0 && forall|i: int| 0 <= i < d.len() ==> '0' <= #[trigger] d[i] && d[i] <= '9'
}

/// The number that the decimal digits `d` denote.
pub open spec fn decimal_value(d: Seq<char>) -> nat
    decreases d.len(),
{
    if d.len() == 0 {
        0
    } else {
        (decimal_value(d.drop_last()) * 10 + digit_value(d.last())) as nat
    }
}

impl Token {
    /// The integer value of a number token, when its digits denote a number
    /// that fits in a `u64`.
    pub fn number_value(&self) -> (r: Option<u64>)
        ensures
            r == (match self@ {
                TokenView::Number(d) => if is_literal(d) && decimal_value(d) <= u64::MAX {
                    Some(decimal_value(d) as u64)
                } else {
                    None
                },
                _ => None,
            }),
    {
        match self {
            Token::Number(d) => {
                assert(self@ == TokenView::Number(d@));
                if d.len() == 0 {
                    return None;
                }
                let mut v: u64 = 0;
                let mut i: usize = 0;
                while i < d.len()
                    invariant
                        self@ == TokenView::Number(d@),
                        i <= d@.len(),
                        forall|j: int| 0 <= j < i ==> '0' <= #[trigger] d@[j] && d@[j] <= '9',
                        v == decimal_value(d@.take(i as int)),
                    decreases d@.len() - i,
                {
                    let c = d[i];
                    proof {
                        assert(d@.take(i + 1).drop_last() =~= d@.take(i as int));
                        assert(d@.take(i + 1).last() == c);
                    }
                    if !('0' <= c && c <= '9') {
                        assert(d@[i as int] == c);
                        return None;
                    }
                    let digit = (c as u32 - '0' as u32) as u64;
                    assert(digit == digit_value(c));
                    assert(decimal_value(d@.take(i + 1)) == v * 10 + digit);
                    let next = match v.checked_mul(10) {
                        Some(m) => m.checked_add(digit),
                        None => None,
                    };
                    match next {
                        Some(w) => v = w,
                        None => {
                            proof {
                                if is_literal(d@) {
                                    lemma_value_grows(d@, i as int + 1);
                                }
                            }
                            return None;
                        },
                    }
                    i = i + 1;
                }
                assert(d@.take(d@.len() as int) =~= d@);
                Some(v)
            },
            _ => None,
        }
    }
}

/// A run of digits denotes at least what any of its prefixes denotes.
pub proof fn lemma_value_grows(d: Seq<char>, k: int)
    requires
        0 <= k <= d.len(),
        forall|i: int| 0 <= i < d.len() ==> '0' <= #[trigger] d[i] && d[i] <= '9',
    ensures
        decimal_value(d.take(k)) <= decimal_value(d),
    decreases d.len() - k,
{
    if k < d.len() {
        lemma_value_grows(d, k + 1);
        assert(d.take(k + 1).drop_last() =~= d.take(k));
    } else {
        assert(d.take(k) =~= d);
    }
}

/// The mathematical value of a [`Token`].
pub enum TokenView {
    Number(Seq<char>),
    Operator(char),
    LeftParen,
    RightParen,
}

impl View for Token {
    type V = TokenView;

    open spec fn view(&self) -> TokenView {
        match self {
            Token::Number(d) => TokenView::Number(d@),
            Token::Operator(c) => TokenView::Operator(*c),
            Token::LeftParen => TokenView::LeftParen,
            Token::RightParen => TokenView::RightParen,
        }
    }
}

/// The four arithmetic operations.
#[derive(Debug, Clone, Copy, PartialEq, Eq, Structural)]
pub enum BinOp {
    Add,
    Sub,
    Mul,
    Div,
}

/// The operation an operator symbol stands for, if any.
pub open spec fn bin_op_of(c: char) -> Option<BinOp> {
    if c == '+' {
        Some(BinOp::Add)
    } else if c == '-' {
        Some(BinOp::Sub)
    } else if c == '*' {
        Some(BinOp::Mul)
    } else if c == '/' {
        Some(BinOp::Div)
    } else {
        None
    }
}

/// Every failure of tokenizing or evaluating.
#[derive(Debug, Clone, Copy, PartialEq, Eq, Structural)]
pub enum ErrorKind {
    /// The tokenizer met a character outside the notation.
    UnexpectedCharacter(char),
    /// An operator came while no operand had been read.
    OperatorWithoutOperands(char),
    /// A `)` came with no open `(` to close.
    UnexpectedRightParenthesis,
    /// The input ended while a `(` was still open.
    UnmatchedLeftParenthesis,
    /// The input ended with several operands and no operator to join them.
    TooManyOperands,
    /// An operator symbol outside `+ - * /` reached a reduction.
    InvalidOperator(char),
    /// The stacks ended in a state that yields no result (such as empty input).
    MalformedExpression,
}

/// An ordered sequence of tokens, in reading order.
#[derive(Debug, Clone, PartialEq)]
pub struct Expression {
    pub tokens: Vec<Token>,
}

/// The views of a sequence of tokens.
pub open spec fn tokens_view(tokens: Seq<Token>) -> Seq<TokenView> {
    tokens.map_values(|t: Token| t@)
}

impl View for Expression {
    type V = Seq<TokenView>;

    open spec fn view(&self) -> Seq<TokenView> {
        tokens_view(self.tokens@)
    }
}

/// The expression tree that evaluation builds: a literal, or an operation on
/// the values of two subterms.
#[derive(Debug, PartialEq)]
pub enum Term {
    Number(Vec<char>),
    Apply(BinOp, Box<Term>, Box<Term>),
}

/// The mathematical value of a [`Term`].
pub enum TermView {
    Number(Seq<char>),
    Apply(BinOp, Box<TermView>, Box<TermView>),
}

impl View for Term {
    type V = TermView;

    open spec fn view(&self) -> TermView
        decreases self,
    {
        match self {
            Term::Number(d) => TermView::Number(d@),
            Term::Apply(op, l, r) => TermView::Apply(*op, Box::new((**l).view()), Box::new((**r).view())),
        }
    }
}

} // verus!
