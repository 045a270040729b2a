use crate::text::{dec_string, token_text};
use vstd::prelude::*;
use vstd::string::StringExecFns;

verus! {

/// One lexical unit of the markup dialect.
///
/// Multi-byte tokens carry their payload: a heading-marker run carries the
/// number of consecutive `#` bytes, a word run carries the captured text.
/// All other variants stand for exactly one byte of input, except `EOF`,
/// which is the end-of-input sentinel (and the scanner's default state
/// before any byte is read). `Illegal` never appears in a successful scan;
/// it only feeds the lexer error message.
#[derive(Debug, PartialEq, Eq, Clone, Default)]
pub enum Token {
    Heading(usize),
    Indent(String),
    WhiteSpace,
    Tab,
    EOL,
    #[default]
    EOF,
    LeftSquare,
    RightSquare,
    LeftParen,
    RightParen,
    LeftAngle,
    RightAngle,
    Dot,
    Dash,
    Equal,
    Plus,
    Asterisk,
    Undersocre,
    BackTick,
    BackSlash,
    Slash,
    Colon,
    SemiColon,
    Illegal(u8),
}

/// The mathematical shape of a [`Token`]: counts as `nat`, text as
/// `Seq<char>`. Contracts and the specification-level scanner speak of
/// tokens through this model.
pub enum TokenModel {
    Heading(nat),
    Indent(Seq<char>),
    WhiteSpace,
    Tab,
    EOL,
    EOF,
    LeftSquare,
    RightSquare,
    LeftParen,
    RightParen,
    LeftAngle,
    RightAngle,
    Dot,
    Dash,
    Equal,
    Plus,
    Asterisk,
    Undersocre,
    BackTick,
    BackSlash,
    Slash,
    Colon,
    SemiColon,
    Illegal(u8),
}

impl View for Token {
    type V = TokenModel;

    open spec fn view(&self) -> TokenModel {
        match self {
            Token::Heading(n) => TokenModel::Heading(*n as nat),
            Token::Indent(s) => TokenModel::Indent(s@),
            Token::WhiteSpace => TokenModel::WhiteSpace,
            Token::Tab => TokenModel::Tab,
            Token::EOL => TokenModel::EOL,
            Token::EOF => TokenModel::EOF,
            Token::LeftSquare => TokenModel::LeftSquare,
            Token::RightSquare => TokenModel::RightSquare,
            Token::LeftParen => TokenModel::LeftParen,
            Token::RightParen => TokenModel::RightParen,
            Token::LeftAngle => TokenModel::LeftAngle,
            Token::RightAngle => TokenModel::RightAngle,
            Token::Dot => TokenModel::Dot,
            Token::Dash => TokenModel::Dash,
            Token::Equal => TokenModel::Equal,
            Token::Plus => TokenModel::Plus,
            Token::Asterisk => TokenModel::Asterisk,
            Token::Undersocre => TokenModel::Undersocre,
            Token::BackTick => TokenModel::BackTick,
            Token::BackSlash => TokenModel::BackSlash,
            Token::Slash => TokenModel::Slash,
            Token::Colon => TokenModel::Colon,
            Token::SemiColon => TokenModel::SemiColon,
            Token::Illegal(b) => TokenModel::Illegal(*b),
        }
    }
}

impl Token {
    /// True exactly for the two line/input terminators, `EOF` and `EOL`.
    pub fn is_end(&self) -> (r: bool)
        ensures
            r == (self@ is EOF || self@ is EOL),
    {
        match self {
            Token::EOF => true,
            Token::EOL => true,
            _ => false,
        }
    }

    /// The stable textual rendering of the token: `"Token -> "` followed
    /// by the variant's fixed name, with the count, the captured text or
    /// the raw byte value spliced in where the variant carries one.
    pub fn text(&self) -> (r: String)
        ensures
            r@ == token_text(self@),
    {
        match self {
            Token::Heading(n) => {
                let mut s = String::from_str("Token -> Heading: #");
                let d = dec_string(*n);
                s.append(d.as_str());
                s
            },
            Token::Indent(t) => {
                let mut s = String::from_str("Token -> Indent: ");
                s.append(t.as_str());
                s.append(" ");
                proof {
                    assert(s@ =~= token_text(self@));
                }
                s
            },
            Token::Illegal(b) => {
                let mut s = String::from_str("Token -> Illegal: ");
                let d = dec_string(*b as usize);
                s.append(d.as_str());
                s.append(" ");
                proof {
                    assert(s@ =~= token_text(self@));
                }
                s
            },
            Token::WhiteSpace => String::from_str("Token -> WhiteSpace"),
            Token::Tab => String::from_str("Token -> Tab"),
            Token::EOL => String::from_str("Token -> EOL"),
            Token::EOF => String::from_str("Token -> EOF"),
            Token::LeftSquare => String::from_str("Token -> LeftSquare"),
            Token::RightSquare => String::from_str("Token -> RightSquare"),
            Token::LeftParen => String::from_str("Token -> LeftParen"),
            Token::RightParen => String::from_str("Token -> RightParen"),
            Token::LeftAngle => String::from_str("Token -> LeftAngle"),
            Token::RightAngle => String::from_str("Token -> RightAngle"),
            Token::Dot => String::from_str("Token -> Dot"),
            Token::Dash => String::from_str("Token -> Dash"),
            Token::Equal => String::from_str("Token -> Equal"),
            Token::Plus => String::from_str("Token -> Plus"),
            Token::Asterisk => String::from_str("Token -> Asterisk"),
            Token::Undersocre => String::from_str("Token -> Undersocre"),
            Token::BackTick => String::from_str("Token -> BackTick"),
            Token::BackSlash => String::from_str("Token -> BackSlash"),
            Token::Slash => String::from_str("Token -> Slash"),
            Token::Colon => String::from_str("Token -> Colon"),
            Token::SemiColon => String::from_str("Token -> SemiColon"),
        }
    }
}

} // verus!
