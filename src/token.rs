use vstd::prelude::*;
use vstd::string::*;

verus! {

/// A token as a mathematical value: its kind and, where it has one, its
/// literal source text.
pub enum Tok {
    Comment(Seq<char>),
    BracketOpen,
    Newline,
    BracketClose,
    Semicolon,
    BracedString(Seq<char>),
    QuotedString(Seq<char>),
    Word(Seq<char>),
}

impl Tok {
    /// Tokens that become arguments of a statement or a block header.
    pub open spec fn is_arg(self) -> bool {
        self is Word || self is QuotedString || self is BracedString
    }

    /// Tokens that the tree builder ignores.
    pub open spec fn is_trivia(self) -> bool {
        self is Comment || self is Newline
    }

    /// The token written back as source text.
    pub open spec fn text(self) -> Seq<char> {
        match self {
            Tok::Comment(s) => s,
            Tok::BracketOpen => seq!['{'],
            Tok::Newline => seq!['\n'],
            Tok::BracketClose => seq!['}'],
            Tok::Semicolon => seq![';'],
            Tok::BracedString(s) => s,
            Tok::QuotedString(s) => s,
            Tok::Word(s) => s,
        }
    }
}

/// A lexical unit of a configuration text. Tokens with content carry their
/// text exactly as it stands in the source: a quoted string keeps its quotes,
/// a braced string its parentheses, a comment its `#` and final newline.
#[derive(Debug, Clone, PartialEq, Eq)]
pub enum Token {
    Comment(String),
    BracketOpen,
    Newline,
    BracketClose,
    Semicolon,
    BracedString(String),
    QuotedString(String),
    Word(String),
}

impl View for Token {
    type V = Tok;

    open spec fn view(&self) -> Tok {
        match self {
            Token::Comment(s) => Tok::Comment(s@),
            Token::BracketOpen => Tok::BracketOpen,
            Token::Newline => Tok::Newline,
            Token::BracketClose => Tok::BracketClose,
            Token::Semicolon => Tok::Semicolon,
            Token::BracedString(s) => Tok::BracedString(s@),
            Token::QuotedString(s) => Tok::QuotedString(s@),
            Token::Word(s) => Tok::Word(s@),
        }
    }
}

/// The views of a sequence of tokens.
pub open spec fn toks_view(ts: Seq<Token>) -> Seq<Tok> {
    ts.map_values(|t: Token| t@)
}

impl Token {
    /// The token as it was written in the source.
    pub fn to_string(&self) -> (r: String)
        ensures
            r@ == self@.text(),
    {
        match self {
            Token::Comment(s) => s.clone(),
            Token::BracketOpen => {
                proof {
                    reveal_strlit("{");
                }
                String::from_str("{")
            },
            Token::Newline => {
                proof {
                    reveal_strlit("\n");
                }
                String::from_str("\n")
            },
            Token::BracketClose => {
                proof {
                    reveal_strlit("}");
                }
                String::from_str("}")
            },
            Token::Semicolon => {
                proof {
                    reveal_strlit(";");
                }
                String::from_str(";")
            },
            Token::BracedString(s) => s.clone(),
            Token::QuotedString(s) => s.clone(),
            Token::Word(s) => s.clone(),
        }
    }
}

} // verus!
