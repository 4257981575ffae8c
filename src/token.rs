//! Tokens, spans and the errors the front end reports.

use vstd::prelude::*;

verus! {

/// The thirteen `$`-prefixed structural markers.
#[derive(Clone, Copy, PartialEq, Eq, Structural, Debug)]
pub enum Keyword {
    /// `$(`
    CommentStart,
    /// `$)`
    CommentEnd,
    /// `$[`
    FileInclusionStart,
    /// `$]`
    FileInclusionEnd,
    /// `${`
    ScopeStart,
    /// `$}`
    ScopeEnd,
    /// `$c`
    ConstantDeclarationStart,
    /// `$v`
    VariableDeclarationStart,
    /// `$d`
    DVConditionStart,
    /// `$a`
    AxiomaticAssertionStart,
    /// `$p`
    ProvableAssertionStart,
    /// `$=`
    ProofDetailsStart,
    /// `$.`
    End,
}

/// The keyword spelled `$` followed by `c`, if there is one.
pub open spec fn keyword_spec(c: u8) -> Option<Keyword> {
    if c == 40 { Some(Keyword::CommentStart) }
    else if c == 41 { Some(Keyword::CommentEnd) }
    else if c == 91 { Some(Keyword::FileInclusionStart) }
    else if c == 93 { Some(Keyword::FileInclusionEnd) }
    else if c == 123 { Some(Keyword::ScopeStart) }
    else if c == 125 { Some(Keyword::ScopeEnd) }
    else if c == 99 { Some(Keyword::ConstantDeclarationStart) }
    else if c == 118 { Some(Keyword::VariableDeclarationStart) }
    else if c == 100 { Some(Keyword::DVConditionStart) }
    else if c == 97 { Some(Keyword::AxiomaticAssertionStart) }
    else if c == 112 { Some(Keyword::ProvableAssertionStart) }
    else if c == 61 { Some(Keyword::ProofDetailsStart) }
    else if c == 46 { Some(Keyword::End) }
    else { None }
}

/// The character that follows `$` in the spelling of `k`.
pub open spec fn keyword_suffix_spec(k: Keyword) -> u8 {
    match k {
        Keyword::CommentStart => 40,
        Keyword::CommentEnd => 41,
        Keyword::FileInclusionStart => 91,
        Keyword::FileInclusionEnd => 93,
        Keyword::ScopeStart => 123,
        Keyword::ScopeEnd => 125,
        Keyword::ConstantDeclarationStart => 99,
        Keyword::VariableDeclarationStart => 118,
        Keyword::DVConditionStart => 100,
        Keyword::AxiomaticAssertionStart => 97,
        Keyword::ProvableAssertionStart => 112,
        Keyword::ProofDetailsStart => 61,
        Keyword::End => 46,
    }
}

/// Looks up the keyword spelled `$` followed by `c`.
pub fn keyword_from_suffix(c: u8) -> (r: Option<Keyword>)
    ensures
        r == keyword_spec(c),
{
    if c == 40 { Some(Keyword::CommentStart) }
    else if c == 41 { Some(Keyword::CommentEnd) }
    else if c == 91 { Some(Keyword::FileInclusionStart) }
    else if c == 93 { Some(Keyword::FileInclusionEnd) }
    else if c == 123 { Some(Keyword::ScopeStart) }
    else if c == 125 { Some(Keyword::ScopeEnd) }
    else if c == 99 { Some(Keyword::ConstantDeclarationStart) }
    else if c == 118 { Some(Keyword::VariableDeclarationStart) }
    else if c == 100 { Some(Keyword::DVConditionStart) }
    else if c == 97 { Some(Keyword::AxiomaticAssertionStart) }
    else if c == 112 { Some(Keyword::ProvableAssertionStart) }
    else if c == 61 { Some(Keyword::ProofDetailsStart) }
    else if c == 46 { Some(Keyword::End) }
    else { None }
}

impl Keyword {
    /// The two-character spelling of the keyword.
    pub fn spelling(&self) -> (r: Vec<u8>)
        ensures
            r@ == seq![36u8, keyword_suffix_spec(*self)],
            keyword_spec(keyword_suffix_spec(*self)) == Some(*self),
    {
        let c: u8 = match self {
            Keyword::CommentStart => 40,
            Keyword::CommentEnd => 41,
            Keyword::FileInclusionStart => 91,
            Keyword::FileInclusionEnd => 93,
            Keyword::ScopeStart => 123,
            Keyword::ScopeEnd => 125,
            Keyword::ConstantDeclarationStart => 99,
            Keyword::VariableDeclarationStart => 118,
            Keyword::DVConditionStart => 100,
            Keyword::AxiomaticAssertionStart => 97,
            Keyword::ProvableAssertionStart => 112,
            Keyword::ProofDetailsStart => 61,
            Keyword::End => 46,
        };
        let r = vec![36u8, c];
        assert(r@ =~= seq![36u8, keyword_suffix_spec(*self)]);
        r
    }
}

/// What a token is. `Word` is the tokenizer's provisional class for a bare
/// word; the production builder turns each one into a `Label` or a
/// `MathSymbol` by the slot it fills.
#[derive(Clone, Copy, PartialEq, Eq, Structural, Debug)]
pub enum TokenKind {
    Keyword(Keyword),
    Word,
    Label,
    MathSymbol,
    CommentedLiteral,
    /// `(` opening the label list of a compressed proof
    CompressedProofStart,
    /// `)` closing the label list of a compressed proof
    CompressedProofEnd,
    /// A run of capital letters in a compressed proof
    CompressedProofPart,
    /// Synthetic marker after the last token of each file
    Eof,
}

/// A half-open range of byte offsets in the file with index `file` of a
/// source table.
#[derive(Clone, Copy, PartialEq, Eq, Structural, Debug)]
pub struct Span {
    pub file: usize,
    pub start: usize,
    pub end: usize,
}

/// A token: its class, its text (empty for `Eof`) and where it stands.
#[derive(Debug)]
pub struct Token {
    pub kind: TokenKind,
    pub text: Vec<u8>,
    pub span: Span,
}

/// The mathematical value of a token.
pub ghost struct TokenV {
    pub kind: TokenKind,
    pub text: Seq<u8>,
    pub span: Span,
}

impl View for Token {
    type V = TokenV;

    open spec fn view(&self) -> TokenV {
        TokenV { kind: self.kind, text: self.text@, span: self.span }
    }
}

/// The values of a sequence of tokens.
pub open spec fn tokens_view(ts: Seq<Token>) -> Seq<TokenV> {
    ts.map_values(|t: Token| t@)
}

impl Token {
    /// A copy of the token.
    pub fn duplicate(&self) -> (r: Token)
        ensures
            r@ == self@,
    {
        Token { kind: self.kind, text: self.text.clone(), span: self.span }
    }
}

/// Everything that makes a database fail to parse. Each variant carries the
/// span where the fault was found.
#[derive(Clone, Copy, PartialEq, Eq, Structural, Debug)]
pub enum ParseError {
    /// A `$`-word that is none of the thirteen keywords.
    UnknownKeyword(Span),
    /// A character other than a capital letter in compressed proof data; the
    /// span covers that character.
    InvalidCompressedProof(Span),
    /// A comment, compressed-proof label list, statement or scope still open
    /// at the end of its file or of the database; the span is where it opened.
    UnterminatedRegion(Span),
    /// A token that cannot stand where it was found.
    UnexpectedToken(Span),
    /// A `$[` not followed by exactly one file name and `$]`; the span is the `$[`.
    MalformedInclusion(Span),
    /// An inclusion of the file with index `file` while it is still open; the
    /// span is the file name in the directive.
    CyclicInclusion { file: usize, at: Span },
    /// An inclusion of a file that the source table does not hold; the span
    /// is the file name in the directive.
    FileNotLoaded(Span),
}

} // verus!
