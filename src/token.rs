//! The tokens that the scanner produces, and their mathematical model.
use vstd::prelude::*;

verus! {

/// The six heading levels, from `#` (H1) to `######` (H6).
#[derive(Copy, Clone, Eq, PartialEq, Structural, Ord, PartialOrd, Hash, Debug)]
pub enum HeadingLevel {
    H1,
    H2,
    H3,
    H4,
    H5,
    H6,
}

/// The level that a run of `n` leading `#` characters gives; a run longer
/// than six is taken as H6.
pub open spec fn level_of(n: nat) -> HeadingLevel {
    if n <= 1 {
        HeadingLevel::H1
    } else if n == 2 {
        HeadingLevel::H2
    } else if n == 3 {
        HeadingLevel::H3
    } else if n == 4 {
        HeadingLevel::H4
    } else if n == 5 {
        HeadingLevel::H5
    } else {
        HeadingLevel::H6
    }
}

impl HeadingLevel {
    /// The level for a run of `n` leading `#` characters (`n >= 1`); runs of
    /// six or more give H6.
    pub fn from_count(n: usize) -> (r: HeadingLevel)
        requires
            n >= 1,
        ensures
            r == level_of(n as nat),
    {
        if n == 1 {
            HeadingLevel::H1
        } else if n == 2 {
            HeadingLevel::H2
        } else if n == 3 {
            HeadingLevel::H3
        } else if n == 4 {
            HeadingLevel::H4
        } else if n == 5 {
            HeadingLevel::H5
        } else {
            HeadingLevel::H6
        }
    }
}

/// A token of the scanner's output.
#[derive(Clone, Debug, PartialEq)]
pub enum Token {
    /// A heading line: its level and the text after the `#` run and the
    /// spaces that follow it.
    Heading(HeadingLevel, String),
    /// The text between a matched pair of `**` markers.
    Bold(String),
    /// Any other text, and the break between two lines.
    Text(String),
}

/// What a token is, with its text as a sequence of characters.
pub ghost enum TokenModel {
    Heading(HeadingLevel, Seq<char>),
    Bold(Seq<char>),
    Text(Seq<char>),
}

impl View for Token {
    type V = TokenModel;

    open spec fn view(&self) -> TokenModel {
        match self {
            Token::Heading(level, text) => TokenModel::Heading(*level, text@),
            Token::Bold(text) => TokenModel::Bold(text@),
            Token::Text(text) => TokenModel::Text(text@),
        }
    }
}

/// The models of a sequence of tokens, in order.
pub open spec fn tokens_view(ts: Seq<Token>) -> Seq<TokenModel> {
    ts.map_values(|t: Token| t@)
}

} // verus!
