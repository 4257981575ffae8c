//! The production builder: groups a resolved token stream into syntax
//! productions with a small state machine, and gives each bare word its
//! final class.

use vstd::prelude::*;
use crate::token::{Keyword, ParseError, Span, Token, TokenKind, TokenV, tokens_view};

verus! {

/// What the builder is in the middle of.
#[derive(Clone, Copy, PartialEq, Eq, Structural, Debug)]
pub enum BuildMode {
    /// No production open
    Idle,
    /// After `$(`
    Comment,
    /// After `$c`, `$v` or `$d`
    Declaration,
    /// After a statement's label
    Labeled,
    /// After `label $a`
    Axiom,
    /// After `label $p`, before `$=`
    Provable,
    /// After `$=`
    Proof,
    /// After `$[`
    Inclusion,
    /// After `$[ name`
    InclusionName,
}

/// The builder's state: its mode, the spans of the open `${` in order, the
/// tokens of the open production and the span of its first token.
pub ghost struct BuildState {
    pub mode: BuildMode,
    pub scopes: Seq<Span>,
    pub cur: Seq<TokenV>,
    pub open: Span,
}

pub open spec fn initial_build_state() -> BuildState {
    BuildState { mode: BuildMode::Idle, scopes: seq![], cur: seq![], open: Span { file: 0, start: 0, end: 0 } }
}

/// `t` with its class set to `k`.
pub open spec fn with_kind(t: TokenV, k: TokenKind) -> TokenV {
    TokenV { kind: k, text: t.text, span: t.span }
}

pub open spec fn kw(k: Keyword) -> TokenKind {
    TokenKind::Keyword(k)
}

/// The open production goes on with `t`, in mode `m`.
pub open spec fn extend(st: BuildState, m: BuildMode, t: TokenV) -> Result<(BuildState, Option<Seq<TokenV>>), ParseError> {
    Ok((BuildState { mode: m, cur: st.cur.push(t), ..st }, None))
}

/// A new production opens with `t`, in mode `m`.
pub open spec fn begin(st: BuildState, m: BuildMode, t: TokenV) -> Result<(BuildState, Option<Seq<TokenV>>), ParseError> {
    Ok((BuildState { mode: m, cur: seq![t], open: t.span, ..st }, None))
}

/// The open production ends with `t`.
pub open spec fn close(st: BuildState, t: TokenV) -> Result<(BuildState, Option<Seq<TokenV>>), ParseError> {
    Ok((BuildState { mode: BuildMode::Idle, cur: seq![], ..st }, Some(st.cur.push(t))))
}

/// One step of the builder on token `t`: the next state and the production
/// completed by `t`, if any, or the fault.
pub open spec fn build_step(st: BuildState, t: TokenV) -> Result<(BuildState, Option<Seq<TokenV>>), ParseError> {
    let k = t.kind;
    let unexpected = Err(ParseError::UnexpectedToken(t.span));
    if st.mode == BuildMode::Idle {
        if k == kw(Keyword::CommentStart) {
            begin(st, BuildMode::Comment, t)
        } else if k == kw(Keyword::ScopeStart) {
            Ok((BuildState { scopes: st.scopes.push(t.span), ..st }, Some(seq![t])))
        } else if k == kw(Keyword::ScopeEnd) {
            if st.scopes.len() == 0 {
                unexpected
            } else {
                Ok((BuildState { scopes: st.scopes.drop_last(), ..st }, Some(seq![t])))
            }
        } else if k == kw(Keyword::ConstantDeclarationStart) || k == kw(Keyword::VariableDeclarationStart)
            || k == kw(Keyword::DVConditionStart) {
            begin(st, BuildMode::Declaration, t)
        } else if k == kw(Keyword::FileInclusionStart) {
            begin(st, BuildMode::Inclusion, t)
        } else if k == TokenKind::Word {
            begin(st, BuildMode::Labeled, with_kind(t, TokenKind::Label))
        } else if k == TokenKind::Eof {
            Ok((st, None))
        } else {
            unexpected
        }
    } else if k == TokenKind::Eof {
        Err(ParseError::UnterminatedRegion(st.open))
    } else if st.mode == BuildMode::Comment {
        if k == TokenKind::CommentedLiteral {
            extend(st, BuildMode::Comment, t)
        } else if k == kw(Keyword::CommentEnd) {
            close(st, t)
        } else {
            unexpected
        }
    } else if st.mode == BuildMode::Declaration || st.mode == BuildMode::Axiom || st.mode == BuildMode::Provable {
        if k == TokenKind::Word {
            extend(st, st.mode, with_kind(t, TokenKind::MathSymbol))
        } else if k == TokenKind::CompressedProofStart || k == TokenKind::CompressedProofEnd {
            extend(st, st.mode, t)
        } else if k == kw(Keyword::End) && st.mode != BuildMode::Provable {
            close(st, t)
        } else if k == kw(Keyword::ProofDetailsStart) && st.mode == BuildMode::Provable {
            extend(st, BuildMode::Proof, t)
        } else {
            unexpected
        }
    } else if st.mode == BuildMode::Labeled {
        if k == kw(Keyword::AxiomaticAssertionStart) {
            extend(st, BuildMode::Axiom, t)
        } else if k == kw(Keyword::ProvableAssertionStart) {
            extend(st, BuildMode::Provable, t)
        } else {
            unexpected
        }
    } else if st.mode == BuildMode::Proof {
        if k == TokenKind::Word {
            extend(st, BuildMode::Proof, with_kind(t, TokenKind::Label))
        } else if k == TokenKind::CompressedProofStart || k == TokenKind::CompressedProofEnd
            || k == TokenKind::CompressedProofPart {
            extend(st, BuildMode::Proof, t)
        } else if k == kw(Keyword::End) {
            close(st, t)
        } else {
            unexpected
        }
    } else if st.mode == BuildMode::Inclusion {
        if k == TokenKind::Word {
            extend(st, BuildMode::InclusionName, with_kind(t, TokenKind::MathSymbol))
        } else {
            Err(ParseError::MalformedInclusion(st.open))
        }
    } else {
        if k == kw(Keyword::FileInclusionEnd) {
            close(st, t)
        } else {
            Err(ParseError::MalformedInclusion(st.open))
        }
    }
}

/// The state and the productions completed after the first `n` tokens of `ts`.
pub open spec fn build_prefix(ts: Seq<TokenV>, n: nat) -> Result<(BuildState, Seq<Seq<TokenV>>), ParseError>
    decreases n,
{
    if n == 0 {
        Ok((initial_build_state(), seq![]))
    } else {
        match build_prefix(ts, (n - 1) as nat) {
            Err(e) => Err(e),
            Ok((st, ps)) => match build_step(st, ts[n - 1]) {
                Err(e) => Err(e),
                Ok((st2, Some(p))) => Ok((st2, ps.push(p))),
                Ok((st2, None)) => Ok((st2, ps)),
            },
        }
    }
}

/// The fault, if any, of a stream that ends in state `st`.
pub open spec fn finish_spec(st: BuildState) -> Option<ParseError> {
    if st.mode != BuildMode::Idle {
        Some(ParseError::UnterminatedRegion(st.open))
    } else if st.scopes.len() > 0 {
        Some(ParseError::UnterminatedRegion(st.scopes.last()))
    } else {
        None
    }
}

/// The productions of the whole stream `ts`, or its first fault.
pub open spec fn build_spec(ts: Seq<TokenV>) -> Result<Seq<Seq<TokenV>>, ParseError> {
    match build_prefix(ts, ts.len()) {
        Err(e) => Err(e),
        Ok((st, ps)) => match finish_spec(st) {
            Some(e) => Err(e),
            None => Ok(ps),
        },
    }
}

/// One complete grammatical unit: a statement, a comment, a scope marker or
/// an inclusion directive. Never empty.
#[derive(Debug)]
pub struct SyntaxProduction {
    pub tokens: Vec<Token>,
}

impl View for SyntaxProduction {
    type V = Seq<TokenV>;

    open spec fn view(&self) -> Seq<TokenV> {
        tokens_view(self.tokens@)
    }
}

pub open spec fn productions_view(ps: Seq<SyntaxProduction>) -> Seq<Seq<TokenV>> {
    ps.map_values(|p: SyntaxProduction| p@)
}

pub open spec fn productions_result_view(r: Result<Vec<SyntaxProduction>, ParseError>) -> Result<Seq<Seq<TokenV>>, ParseError> {
    match r {
        Ok(v) => Ok(productions_view(v@)),
        Err(e) => Err(e),
    }
}

/// An incremental production builder: fed one token at a time, it hands out
/// each production as soon as it is complete.
pub struct ProductionBuilder {
    pub mode: BuildMode,
    pub scopes: Vec<Span>,
    pub cur: Vec<Token>,
    pub open: Span,
}

impl View for ProductionBuilder {
    type V = BuildState;

    open spec fn view(&self) -> BuildState {
        BuildState { mode: self.mode, scopes: self.scopes@, cur: tokens_view(self.cur@), open: self.open }
    }
}

fn retag(t: Token, k: TokenKind) -> (r: Token)
    ensures
        r@ == with_kind(t@, k),
{
    Token { kind: k, text: t.text, span: t.span }
}

impl ProductionBuilder {
    pub fn new() -> (r: ProductionBuilder)
        ensures
            r@ == initial_build_state(),
    {
        let r = ProductionBuilder { mode: BuildMode::Idle, scopes: Vec::new(), cur: Vec::new(), open: Span { file: 0, start: 0, end: 0 } };
        assert(r@.cur =~= seq![]);
        assert(r@.scopes =~= seq![]);
        r
    }

    fn do_extend(&mut self, m: BuildMode, t: Token)
        ensures
            extend(old(self)@, m, t@) == Ok::<(BuildState, Option<Seq<TokenV>>), ParseError>((final(self)@, None)),
    {
        let ghost old_cur = tokens_view(self.cur@);
        let ghost tv = t@;
        self.cur.push(t);
        self.mode = m;
        assert(tokens_view(self.cur@) =~= old_cur.push(tv));
    }

    fn do_begin(&mut self, m: BuildMode, t: Token)
        ensures
            begin(old(self)@, m, t@) == Ok::<(BuildState, Option<Seq<TokenV>>), ParseError>((final(self)@, None)),
    {
        let ghost tv = t@;
        self.open = t.span;
        self.cur = vec![t];
        self.mode = m;
        assert(tokens_view(self.cur@) =~= seq![tv]);
    }

    fn do_close(&mut self, t: Token) -> (r: SyntaxProduction)
        ensures
            close(old(self)@, t@) == Ok::<(BuildState, Option<Seq<TokenV>>), ParseError>((final(self)@, Some(r@))),
    {
        let ghost old_cur = tokens_view(self.cur@);
        let ghost tv = t@;
        let mut toks: Vec<Token> = Vec::new();
        std::mem::swap(&mut toks, &mut self.cur);
        toks.push(t);
        self.mode = BuildMode::Idle;
        assert(tokens_view(toks@) =~= old_cur.push(tv));
        assert(tokens_view(self.cur@) =~= seq![]);
        SyntaxProduction { tokens: toks }
    }

    /// Feeds one token: returns the production it completes, if any.
    pub fn push_token(&mut self, t: Token) -> (r: Result<Option<SyntaxProduction>, ParseError>)
        ensures
            match build_step(old(self)@, t@) {
                Ok((st2, p)) => r matches Ok(q) && final(self)@ == st2 && (match q {
                    Some(q) => p == Some(q@),
                    None => p is None,
                }),
                Err(e) => r == Err::<Option<SyntaxProduction>, ParseError>(e),
            },
    {
        let k = t.kind;
        let sp = t.span;
        if self.mode == BuildMode::Idle {
            if k == TokenKind::Keyword(Keyword::CommentStart) {
                self.do_begin(BuildMode::Comment, t);
                Ok(None)
            } else if k == TokenKind::Keyword(Keyword::ScopeStart) {
                let ghost tv = t@;
                self.scopes.push(sp);
                let p = SyntaxProduction { tokens: vec![t] };
                assert(p@ =~= seq![tv]);
                Ok(Some(p))
            } else if k == TokenKind::Keyword(Keyword::ScopeEnd) {
                if self.scopes.len() == 0 {
                    Err(ParseError::UnexpectedToken(sp))
                } else {
                    let ghost tv = t@;
                    let ghost old_scopes = self.scopes@;
                    self.scopes.pop();
                    assert(self.scopes@ =~= old_scopes.drop_last());
                    let p = SyntaxProduction { tokens: vec![t] };
                    assert(p@ =~= seq![tv]);
                    Ok(Some(p))
                }
            } else if k == TokenKind::Keyword(Keyword::ConstantDeclarationStart)
                || k == TokenKind::Keyword(Keyword::VariableDeclarationStart)
                || k == TokenKind::Keyword(Keyword::DVConditionStart) {
                self.do_begin(BuildMode::Declaration, t);
                Ok(None)
            } else if k == TokenKind::Keyword(Keyword::FileInclusionStart) {
                self.do_begin(BuildMode::Inclusion, t);
                Ok(None)
            } else if k == TokenKind::Word {
                self.do_begin(BuildMode::Labeled, retag(t, TokenKind::Label));
                Ok(None)
            } else if k == TokenKind::Eof {
                Ok(None)
            } else {
                Err(ParseError::UnexpectedToken(sp))
            }
        } else if k == TokenKind::Eof {
            Err(ParseError::UnterminatedRegion(self.open))
        } else if self.mode == BuildMode::Comment {
            if k == TokenKind::CommentedLiteral {
                self.do_extend(BuildMode::Comment, t);
                Ok(None)
            } else if k == TokenKind::Keyword(Keyword::CommentEnd) {
                Ok(Some(self.do_close(t)))
            } else {
                Err(ParseError::UnexpectedToken(sp))
            }
        } else if self.mode == BuildMode::Declaration || self.mode == BuildMode::Axiom
            || self.mode == BuildMode::Provable {
            if k == TokenKind::Word {
                let m = self.mode;
                self.do_extend(m, retag(t, TokenKind::MathSymbol));
                Ok(None)
            } else if k == TokenKind::CompressedProofStart || k == TokenKind::CompressedProofEnd {
                let m = self.mode;
                self.do_extend(m, t);
                Ok(None)
            } else if k == TokenKind::Keyword(Keyword::End) && self.mode != BuildMode::Provable {
                Ok(Some(self.do_close(t)))
            } else if k == TokenKind::Keyword(Keyword::ProofDetailsStart) && self.mode == BuildMode::Provable {
                self.do_extend(BuildMode::Proof, t);
                Ok(None)
            } else {
                Err(ParseError::UnexpectedToken(sp))
            }
        } else if self.mode == BuildMode::Labeled {
            if k == TokenKind::Keyword(Keyword::AxiomaticAssertionStart) {
                self.do_extend(BuildMode::Axiom, t);
                Ok(None)
            } else if k == TokenKind::Keyword(Keyword::ProvableAssertionStart) {
                self.do_extend(BuildMode::Provable, t);
                Ok(None)
            } else {
                Err(ParseError::UnexpectedToken(sp))
            }
        } else if self.mode == BuildMode::Proof {
            if k == TokenKind::Word {
                self.do_extend(BuildMode::Proof, retag(t, TokenKind::Label));
                Ok(None)
            } else if k == TokenKind::CompressedProofStart || k == TokenKind::CompressedProofEnd
                || k == TokenKind::CompressedProofPart {
                self.do_extend(BuildMode::Proof, t);
                Ok(None)
            } else if k == TokenKind::Keyword(Keyword::End) {
                Ok(Some(self.do_close(t)))
            } else {
                Err(ParseError::UnexpectedToken(sp))
            }
        } else if self.mode == BuildMode::Inclusion {
            if k == TokenKind::Word {
                self.do_extend(BuildMode::InclusionName, retag(t, TokenKind::MathSymbol));
                Ok(None)
            } else {
                Err(ParseError::MalformedInclusion(self.open))
            }
        } else {
            if k == TokenKind::Keyword(Keyword::FileInclusionEnd) {
                Ok(Some(self.do_close(t)))
            } else {
                Err(ParseError::MalformedInclusion(self.open))
            }
        }
    }

    /// Ends the stream: fails if a production or a scope is still open.
    pub fn finish(&self) -> (r: Option<ParseError>)
        ensures
            r == finish_spec(self@),
    {
        if self.mode != BuildMode::Idle {
            Some(ParseError::UnterminatedRegion(self.open))
        } else if self.scopes.len() > 0 {
            Some(ParseError::UnterminatedRegion(self.scopes[self.scopes.len() - 1]))
        } else {
            None
        }
    }
}

/// Groups `tokens` into productions, or reports the first fault.
pub fn build_productions(tokens: &Vec<Token>) -> (r: Result<Vec<SyntaxProduction>, ParseError>)
    ensures
        productions_result_view(r) == build_spec(tokens_view(tokens@)),
{
    let ghost ts = tokens_view(tokens@);
    let mut b = ProductionBuilder::new();
    let mut out: Vec<SyntaxProduction> = Vec::new();
    let mut n: usize = 0;
    assert(productions_view(out@) =~= seq![]);
    while n < tokens.len()
        invariant
            n <= tokens@.len(),
            ts == tokens_view(tokens@),
            build_prefix(ts, n as nat) == Ok::<(BuildState, Seq<Seq<TokenV>>), ParseError>((b@, productions_view(out@))),
        decreases tokens.len() - n,
    {
        let t = tokens[n].duplicate();
        assert(ts[n as int] == t@);
        match b.push_token(t) {
            Ok(Some(p)) => {
                let ghost old_out = productions_view(out@);
                let ghost pv = p@;
                out.push(p);
                assert(productions_view(out@) =~= old_out.push(pv));
            },
            Ok(None) => {},
            Err(e) => {
                proof { lemma_build_prefix_err(ts, (n + 1) as nat, ts.len()); }
                return Err(e);
            },
        }
        n = n + 1;
    }
    assert(ts.len() == n);
    match b.finish() {
        Some(e) => Err(e),
        None => Ok(out),
    }
}

/// Once the builder fails, it stays failed with the same fault.
proof fn lemma_build_prefix_err(ts: Seq<TokenV>, n: nat, m: nat)
    requires
        n <= m,
        build_prefix(ts, n) is Err,
    ensures
        build_prefix(ts, m) == build_prefix(ts, n),
    decreases m - n,
{
    if n < m {
        lemma_build_prefix_err(ts, n, (m - 1) as nat);
    }
}

} // verus!
