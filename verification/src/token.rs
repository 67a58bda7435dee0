use vstd::prelude::*;
use crate::err::JsonError;

verus! {

/// The mathematical model of a lexical token: payloads are byte sequences.
pub enum TokenModel {
    /// A string literal, with escapes already decoded.
    Str(Seq<u8>),
    /// A numeric literal, kept as its validated lexeme.
    Num(Seq<u8>),
    True,
    False,
    Null,
    LBrace,
    RBrace,
    LBracket,
    RBracket,
    Comma,
    Colon,
    /// End of input; repeated reads at the end keep yielding it.
    Eof,
    /// An alphanumeric run other than `true`, `false` or `null`, or a
    /// byte no token can start with.
    Illegal,
}

/// A lexical token. Its view is the corresponding `TokenModel`.
#[derive(Debug, PartialEq, Eq)]
pub enum Token {
    Str(Vec<u8>),
    Num(Vec<u8>),
    True,
    False,
    Null,
    LBrace,
    RBrace,
    LBracket,
    RBracket,
    Comma,
    Colon,
    Eof,
    Illegal,
}

impl View for Token {
    type V = TokenModel;

    open spec fn view(&self) -> TokenModel {
        match self {
            Token::Str(t) => TokenModel::Str(t@),
            Token::Num(t) => TokenModel::Num(t@),
            Token::True => TokenModel::True,
            Token::False => TokenModel::False,
            Token::Null => TokenModel::Null,
            Token::LBrace => TokenModel::LBrace,
            Token::RBrace => TokenModel::RBrace,
            Token::LBracket => TokenModel::LBracket,
            Token::RBracket => TokenModel::RBracket,
            Token::Comma => TokenModel::Comma,
            Token::Colon => TokenModel::Colon,
            Token::Eof => TokenModel::Eof,
            Token::Illegal => TokenModel::Illegal,
        }
    }
}

/// The model of a lexer step's outcome: the token read, or the lexical
/// error met while reading it.
pub open spec fn token_outcome(r: Result<Token, JsonError>) -> Result<TokenModel, JsonError> {
    match r {
        Ok(t) => Ok(t@),
        Err(e) => Err(e),
    }
}

} // verus!
