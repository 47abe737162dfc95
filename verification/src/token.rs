use vstd::prelude::*;

verus! {

/// One lexical token. Every variant carries the zero-based character index at
/// which its matching rule began; the literal and identifier variants also
/// carry the decoded text.
#[derive(Debug, PartialEq, Eq)]
pub enum Token {
    // grouping
    LParen { offset: usize },
    RParen { offset: usize },
    LBrac { offset: usize },
    RBrac { offset: usize },
    LCurl { offset: usize },
    RCurl { offset: usize },
    // operators
    Plus { offset: usize },
    PlusPlus { offset: usize },
    PlusEqual { offset: usize },
    Minus { offset: usize },
    MinusMinus { offset: usize },
    MinusEqual { offset: usize },
    Slash { offset: usize },
    SlashSlash { offset: usize },
    Modulo { offset: usize },
    Star { offset: usize },
    Hash { offset: usize },
    SemiColon { offset: usize },
    Arrow { offset: usize },
    DoubleArrow { offset: usize },
    Colon { offset: usize },
    // comparisons
    Equal { offset: usize },
    EqualEqual { offset: usize },
    Less { offset: usize },
    LessEqual { offset: usize },
    More { offset: usize },
    MoreEqual { offset: usize },
    Bang { offset: usize },
    BangEqual { offset: usize },
    // literals
    String { offset: usize, value: std::string::String },
    Ident { offset: usize, value: std::string::String },
    Numeric { offset: usize, value: std::string::String },
    // keywords
    Return { offset: usize },
    Func { offset: usize },
    If { offset: usize },
    Else { offset: usize },
    Elif { offset: usize },
    // other
    Eof { offset: usize },
}

/// The mathematical image of a token: the same variants with unbounded
/// offsets and character sequences in place of strings. Contracts and the
/// scanner's specification speak of these.
pub enum TokenView {
    LParen { offset: int },
    RParen { offset: int },
    LBrac { offset: int },
    RBrac { offset: int },
    LCurl { offset: int },
    RCurl { offset: int },
    Plus { offset: int },
    PlusPlus { offset: int },
    PlusEqual { offset: int },
    Minus { offset: int },
    MinusMinus { offset: int },
    MinusEqual { offset: int },
    Slash { offset: int },
    SlashSlash { offset: int },
    Modulo { offset: int },
    Star { offset: int },
    Hash { offset: int },
    SemiColon { offset: int },
    Arrow { offset: int },
    DoubleArrow { offset: int },
    Colon { offset: int },
    Equal { offset: int },
    EqualEqual { offset: int },
    Less { offset: int },
    LessEqual { offset: int },
    More { offset: int },
    MoreEqual { offset: int },
    Bang { offset: int },
    BangEqual { offset: int },
    String { offset: int, value: Seq<char> },
    Ident { offset: int, value: Seq<char> },
    Numeric { offset: int, value: Seq<char> },
    Return { offset: int },
    Func { offset: int },
    If { offset: int },
    Else { offset: int },
    Elif { offset: int },
    Eof { offset: int },
}

impl View for Token {
    type V = TokenView;

    open spec fn view(&self) -> TokenView {
        match self {
            Token::LParen { offset } => TokenView::LParen { offset: *offset as int },
            Token::RParen { offset } => TokenView::RParen { offset: *offset as int },
            Token::LBrac { offset } => TokenView::LBrac { offset: *offset as int },
            Token::RBrac { offset } => TokenView::RBrac { offset: *offset as int },
            Token::LCurl { offset } => TokenView::LCurl { offset: *offset as int },
            Token::RCurl { offset } => TokenView::RCurl { offset: *offset as int },
            Token::Plus { offset } => TokenView::Plus { offset: *offset as int },
            Token::PlusPlus { offset } => TokenView::PlusPlus { offset: *offset as int },
            Token::PlusEqual { offset } => TokenView::PlusEqual { offset: *offset as int },
            Token::Minus { offset } => TokenView::Minus { offset: *offset as int },
            Token::MinusMinus { offset } => TokenView::MinusMinus { offset: *offset as int },
            Token::MinusEqual { offset } => TokenView::MinusEqual { offset: *offset as int },
            Token::Slash { offset } => TokenView::Slash { offset: *offset as int },
            Token::SlashSlash { offset } => TokenView::SlashSlash { offset: *offset as int },
            Token::Modulo { offset } => TokenView::Modulo { offset: *offset as int },
            Token::Star { offset } => TokenView::Star { offset: *offset as int },
            Token::Hash { offset } => TokenView::Hash { offset: *offset as int },
            Token::SemiColon { offset } => TokenView::SemiColon { offset: *offset as int },
            Token::Arrow { offset } => TokenView::Arrow { offset: *offset as int },
            Token::DoubleArrow { offset } => TokenView::DoubleArrow { offset: *offset as int },
            Token::Colon { offset } => TokenView::Colon { offset: *offset as int },
            Token::Equal { offset } => TokenView::Equal { offset: *offset as int },
            Token::EqualEqual { offset } => TokenView::EqualEqual { offset: *offset as int },
            Token::Less { offset } => TokenView::Less { offset: *offset as int },
            Token::LessEqual { offset } => TokenView::LessEqual { offset: *offset as int },
            Token::More { offset } => TokenView::More { offset: *offset as int },
            Token::MoreEqual { offset } => TokenView::MoreEqual { offset: *offset as int },
            Token::Bang { offset } => TokenView::Bang { offset: *offset as int },
            Token::BangEqual { offset } => TokenView::BangEqual { offset: *offset as int },
            Token::String { offset, value } => TokenView::String {
                offset: *offset as int,
                value: value@,
            },
            Token::Ident { offset, value } => TokenView::Ident {
                offset: *offset as int,
                value: value@,
            },
            Token::Numeric { offset, value } => TokenView::Numeric {
                offset: *offset as int,
                value: value@,
            },
            Token::Return { offset } => TokenView::Return { offset: *offset as int },
            Token::Func { offset } => TokenView::Func { offset: *offset as int },
            Token::If { offset } => TokenView::If { offset: *offset as int },
            Token::Else { offset } => TokenView::Else { offset: *offset as int },
            Token::Elif { offset } => TokenView::Elif { offset: *offset as int },
            Token::Eof { offset } => TokenView::Eof { offset: *offset as int },
        }
    }
}

/// The source offset a token carries, whatever its variant.
pub open spec fn offset_of(t: TokenView) -> int {
    match t {
        TokenView::LParen { offset } => offset,
        TokenView::RParen { offset } => offset,
        TokenView::LBrac { offset } => offset,
        TokenView::RBrac { offset } => offset,
        TokenView::LCurl { offset } => offset,
        TokenView::RCurl { offset } => offset,
        TokenView::Plus { offset } => offset,
        TokenView::PlusPlus { offset } => offset,
        TokenView::PlusEqual { offset } => offset,
        TokenView::Minus { offset } => offset,
        TokenView::MinusMinus { offset } => offset,
        TokenView::MinusEqual { offset } => offset,
        TokenView::Slash { offset } => offset,
        TokenView::SlashSlash { offset } => offset,
        TokenView::Modulo { offset } => offset,
        TokenView::Star { offset } => offset,
        TokenView::Hash { offset } => offset,
        TokenView::SemiColon { offset } => offset,
        TokenView::Arrow { offset } => offset,
        TokenView::DoubleArrow { offset } => offset,
        TokenView::Colon { offset } => offset,
        TokenView::Equal { offset } => offset,
        TokenView::EqualEqual { offset } => offset,
        TokenView::Less { offset } => offset,
        TokenView::LessEqual { offset } => offset,
        TokenView::More { offset } => offset,
        TokenView::MoreEqual { offset } => offset,
        TokenView::Bang { offset } => offset,
        TokenView::BangEqual { offset } => offset,
        TokenView::String { offset, .. } => offset,
        TokenView::Ident { offset, .. } => offset,
        TokenView::Numeric { offset, .. } => offset,
        TokenView::Return { offset } => offset,
        TokenView::Func { offset } => offset,
        TokenView::If { offset } => offset,
        TokenView::Else { offset } => offset,
        TokenView::Elif { offset } => offset,
        TokenView::Eof { offset } => offset,
    }
}

/// The images of a sequence of tokens, in order.
pub open spec fn token_views(ts: Seq<Token>) -> Seq<TokenView> {
    ts.map_values(|t: Token| t@)
}

} // verus!
