//! The tokens that the style DSL is written in.
//!
//! A caller that holds Rust tokens makes one [`Token`] of each: of an identifier with
//! [`Token::from_ident`], of a literal with [`Token::from_literal`], of a punctuation
//! character with [`Token::from_punct`], and of the two ends of a delimited group with
//! [`Token::opening`] and [`Token::closing`]. The parsers of this crate read the
//! resulting flat sequence.

use vstd::prelude::*;

verus! {

/// One token of the style DSL.
#[derive(Debug, PartialEq, Eq)]
pub enum Token {
    /// An identifier that is no reserved word.
    Ident(String),
    /// An integer literal: its digits in base ten, and the suffix behind them.
    Int { digits: String, unit: String },
    /// `-`
    Hyphen,
    /// `:`
    Colon,
    /// `,`
    Comma,
    /// `$`
    Dollar,
    /// `#`
    Hash,
    /// `{`
    OpenBrace,
    /// `}`
    CloseBrace,
    /// Anything else.
    Other,
}

/// The mathematical value of a [`Token`].
pub enum TokenView {
    Ident(Seq<char>),
    Int { digits: Seq<char>, unit: Seq<char> },
    Hyphen,
    Colon,
    Comma,
    Dollar,
    Hash,
    OpenBrace,
    CloseBrace,
    Other,
}

impl View for Token {
    type V = TokenView;

    open spec fn view(&self) -> TokenView {
        match self {
            Token::Ident(text) => TokenView::Ident(text@),
            Token::Int { digits, unit } => TokenView::Int { digits: digits@, unit: unit@ },
            Token::Hyphen => TokenView::Hyphen,
            Token::Colon => TokenView::Colon,
            Token::Comma => TokenView::Comma,
            Token::Dollar => TokenView::Dollar,
            Token::Hash => TokenView::Hash,
            Token::OpenBrace => TokenView::OpenBrace,
            Token::CloseBrace => TokenView::CloseBrace,
            Token::Other => TokenView::Other,
        }
    }
}

/// The views of a sequence of tokens.
pub open spec fn token_views(tokens: Seq<Token>) -> Seq<TokenView> {
    tokens.map_values(|t: Token| t@)
}

/// How a group of Rust tokens is delimited.
#[derive(Clone, Copy, Debug, PartialEq, Eq)]
pub enum Delimiter {
    /// `{ ... }`
    Brace,
    /// `( ... )`
    Parenthesis,
    /// `[ ... ]`
    Bracket,
    /// A group without visible delimiters, as a macro argument makes one.
    Invisible,
}

/// Whether `syn` reads `text` as one identifier that is no reserved word.
pub uninterp spec fn accepted_identifier(text: Seq<char>) -> bool;

/// What `syn` reads of `text` as one integer literal: its value in base-ten digits and its
/// suffix; `None` where `text` is no integer literal.
pub uninterp spec fn int_literal_parts(text: Seq<char>) -> Option<(Seq<char>, Seq<char>)>;

/// Calls `syn::parse_str::<syn::Ident>` and tells whether it succeeded. The result is
/// taken to depend on `text` alone; nothing is claimed about which texts are accepted.
#[verifier::external_body]
fn is_accepted_identifier(text: &str) -> (r: bool)
    ensures
        r == accepted_identifier(text@),
{
    syn::parse_str::<syn::Ident>(text).is_ok()
}

/// Calls `syn::parse_str::<syn::LitInt>` and, where it succeeds, hands out what
/// `LitInt::base10_digits` and `LitInt::suffix` return. The result is taken to depend on
/// `text` alone; nothing is claimed about how a literal is split.
#[verifier::external_body]
fn split_int_literal(text: &str) -> (r: Option<(String, String)>)
    ensures
        r matches Some(parts) ==> int_literal_parts(text@) == Some((parts.0@, parts.1@)),
        r is None ==> int_literal_parts(text@) is None,
{
    match syn::parse_str::<syn::LitInt>(text) {
        Ok(lit) => Some((lit.base10_digits().to_string(), lit.suffix().to_string())),
        Err(_) => None,
    }
}

/// The token that the punctuation character `c` stands for.
pub open spec fn punct_token(c: char) -> TokenView {
    if c == '-' {
        TokenView::Hyphen
    } else if c == ':' {
        TokenView::Colon
    } else if c == ',' {
        TokenView::Comma
    } else if c == '$' {
        TokenView::Dollar
    } else if c == '#' {
        TokenView::Hash
    } else {
        TokenView::Other
    }
}

/// The token of an identifier-shaped text: an identifier where it was accepted as one.
pub open spec fn ident_token(text: Seq<char>, accepted: bool) -> TokenView {
    if accepted {
        TokenView::Ident(text)
    } else {
        TokenView::Other
    }
}

/// The token of a literal: an integer literal where it could be split into digits and
/// suffix.
pub open spec fn literal_token(parts: Option<(Seq<char>, Seq<char>)>) -> TokenView {
    match parts {
        Some((digits, unit)) => TokenView::Int { digits, unit },
        None => TokenView::Other,
    }
}

/// The token that opens a group: none for an invisible delimiter.
pub open spec fn opening_token(delimiter: Delimiter) -> Option<TokenView> {
    match delimiter {
        Delimiter::Brace => Some(TokenView::OpenBrace),
        Delimiter::Invisible => None,
        _ => Some(TokenView::Other),
    }
}

/// The token that closes a group: none for an invisible delimiter.
pub open spec fn closing_token(delimiter: Delimiter) -> Option<TokenView> {
    match delimiter {
        Delimiter::Brace => Some(TokenView::CloseBrace),
        Delimiter::Invisible => None,
        _ => Some(TokenView::Other),
    }
}

impl Clone for Token {
    fn clone(&self) -> (r: Self)
        ensures
            r == *self,
    {
        match self {
            Token::Ident(text) => Token::Ident(text.clone()),
            Token::Int { digits, unit } => Token::Int { digits: digits.clone(), unit: unit.clone() },
            Token::Hyphen => Token::Hyphen,
            Token::Colon => Token::Colon,
            Token::Comma => Token::Comma,
            Token::Dollar => Token::Dollar,
            Token::Hash => Token::Hash,
            Token::OpenBrace => Token::OpenBrace,
            Token::CloseBrace => Token::CloseBrace,
            Token::Other => Token::Other,
        }
    }
}

impl Token {
    /// The token of one punctuation character.
    pub fn from_punct(c: char) -> (r: Token)
        ensures
            r@ == punct_token(c),
    {
        if c == '-' {
            Token::Hyphen
        } else if c == ':' {
            Token::Colon
        } else if c == ',' {
            Token::Comma
        } else if c == '$' {
            Token::Dollar
        } else if c == '#' {
            Token::Hash
        } else {
            Token::Other
        }
    }

    /// The token of an identifier-shaped text, given whether it is accepted as an
    /// identifier.
    pub fn ident_or_other(text: &str, accepted: bool) -> (r: Token)
        ensures
            r@ == ident_token(text@, accepted),
    {
        if accepted {
            Token::Ident(text.to_owned())
        } else {
            Token::Other
        }
    }

    /// The token of an identifier-shaped text: [`Token::Ident`] unless the text is a
    /// reserved word.
    pub fn from_ident(text: &str) -> (r: Token)
        ensures
            r@ == ident_token(text@, accepted_identifier(text@)),
    {
        let accepted = is_accepted_identifier(text);
        Token::ident_or_other(text, accepted)
    }

    /// The token of a literal, given its digits and suffix where it is an integer literal.
    pub fn int_or_other(parts: Option<(String, String)>) -> (r: Token)
        ensures
            r@ == literal_token(
                match parts {
                    Some(p) => Some((p.0@, p.1@)),
                    None => None,
                },
            ),
    {
        match parts {
            Some((digits, unit)) => Token::Int { digits, unit },
            None => Token::Other,
        }
    }

    /// The token of a literal: [`Token::Int`] where the text is an integer literal.
    pub fn from_literal(text: &str) -> (r: Token)
        ensures
            r@ == literal_token(int_literal_parts(text@)),
    {
        let parts = split_int_literal(text);
        Token::int_or_other(parts)
    }

    /// The token that opens a group with the given delimiter.
    pub fn opening(delimiter: Delimiter) -> (r: Option<Token>)
        ensures
            r is Some == opening_token(delimiter) is Some,
            r matches Some(t) ==> opening_token(delimiter) == Some(t@),
    {
        match delimiter {
            Delimiter::Brace => Some(Token::OpenBrace),
            Delimiter::Invisible => None,
            _ => Some(Token::Other),
        }
    }

    /// The token that closes a group with the given delimiter.
    pub fn closing(delimiter: Delimiter) -> (r: Option<Token>)
        ensures
            r is Some == closing_token(delimiter) is Some,
            r matches Some(t) ==> closing_token(delimiter) == Some(t@),
    {
        match delimiter {
            Delimiter::Brace => Some(Token::CloseBrace),
            Delimiter::Invisible => None,
            _ => Some(Token::Other),
        }
    }
}

} // verus!
