use vstd::prelude::*;

verus! {

/// The arithmetic operator carried by a `Token::BinaryOperator` token.
#[derive(Debug, PartialEq, Eq, Structural, Clone, Copy)]
pub enum BinaryOperator {
    Addition,
    Subtraction,
    Multiplication,
    Division,
}

/// A single classified lexical unit of the source text.
#[derive(Debug)]
pub enum Token {
    /// A maximal run of ASCII digits, parsed as a base-10 32-bit signed integer.
    Number(i32),
    /// A maximal run of ASCII alphabetic characters that is not a reserved
    /// keyword, with the casing of each character preserved as written.
    Identifier(String),
    /// `=`
    Equals,
    /// `(`
    OpenParen,
    /// `)`
    CloseParen,
    /// One of `+`, `-`, `*`, `/`.
    BinaryOperator(BinaryOperator),
    /// The reserved keyword `let` (matched case-sensitively).
    Let,
    /// End of input: the sentinel closing every successful scan, always
    /// exactly one and always last.
    Eof,
}

/// The mathematical model of a token: the same variants as [`Token`], with
/// payloads abstracted to unbounded integers and character sequences.
pub ghost enum TokenView {
    Number(int),
    Identifier(Seq<char>),
    Equals,
    OpenParen,
    CloseParen,
    BinaryOperator(BinaryOperator),
    Let,
    Eof,
}

/// The fixed operator/punctuation table: the token emitted for a single
/// character, or `None` when the character is not in the table.
pub open spec fn punct_token(c: char) -> Option<TokenView> {
    if c == '(' {
        Some(TokenView::OpenParen)
    } else if c == ')' {
        Some(TokenView::CloseParen)
    } else if c == '=' {
        Some(TokenView::Equals)
    } else if c == '+' {
        Some(TokenView::BinaryOperator(BinaryOperator::Addition))
    } else if c == '-' {
        Some(TokenView::BinaryOperator(BinaryOperator::Subtraction))
    } else if c == '*' {
        Some(TokenView::BinaryOperator(BinaryOperator::Multiplication))
    } else if c == '/' {
        Some(TokenView::BinaryOperator(BinaryOperator::Division))
    } else {
        None
    }
}

impl Token {
    /// Looks a single character up in the operator/punctuation table.
    pub fn try_from_char(c: char) -> (r: Option<Token>)
        ensures
            match r {
                Some(t) => punct_token(c) == Some(t@),
                None => punct_token(c) is None,
            },
    {
        if c == '(' {
            Some(Token::OpenParen)
        } else if c == ')' {
            Some(Token::CloseParen)
        } else if c == '=' {
            Some(Token::Equals)
        } else if c == '+' {
            Some(Token::BinaryOperator(BinaryOperator::Addition))
        } else if c == '-' {
            Some(Token::BinaryOperator(BinaryOperator::Subtraction))
        } else if c == '*' {
            Some(Token::BinaryOperator(BinaryOperator::Multiplication))
        } else if c == '/' {
            Some(Token::BinaryOperator(BinaryOperator::Division))
        } else {
            None
        }
    }
}

impl View for Token {
    type V = TokenView;

    open spec fn view(&self) -> TokenView {
        match self {
            Token::Number(n) => TokenView::Number(*n as int),
            Token::Identifier(s) => TokenView::Identifier(s@),
            Token::Equals => TokenView::Equals,
            Token::OpenParen => TokenView::OpenParen,
            Token::CloseParen => TokenView::CloseParen,
            Token::BinaryOperator(op) => TokenView::BinaryOperator(*op),
            Token::Let => TokenView::Let,
            Token::Eof => TokenView::Eof,
        }
    }
}

impl PartialEq for Token {
    /// Two tokens are equal iff they are the same variant and, for variants
    /// carrying a payload, the payloads are equal; payload-less variants are
    /// equal by variant identity alone.
    fn eq(&self, other: &Self) -> (r: bool) {
        match (self, other) {
            (Token::Number(a), Token::Number(b)) => a == b,
            (Token::Identifier(a), Token::Identifier(b)) => *a == *b,
            (Token::BinaryOperator(a), Token::BinaryOperator(b)) => a == b,
            (Token::Equals, Token::Equals) => true,
            (Token::OpenParen, Token::OpenParen) => true,
            (Token::CloseParen, Token::CloseParen) => true,
            (Token::Let, Token::Let) => true,
            (Token::Eof, Token::Eof) => true,
            _ => false,
        }
    }
}

impl vstd::std_specs::cmp::PartialEqSpecImpl for Token {
    open spec fn obeys_eq_spec() -> bool {
        true
    }

    open spec fn eq_spec(&self, other: &Token) -> bool {
        self@ == other@
    }
}

} // verus!
