//! The tokenizer: splits a file's bytes into whitespace-delimited words and
//! classifies each word by the region it stands in.

use vstd::prelude::*;
use crate::position::{count_newlines, line_start, lemma_counts_bounded};
use crate::resolver::SourceText;
use crate::token::{Keyword, ParseError, Span, Token, TokenKind, TokenV, keyword_from_suffix, keyword_spec, tokens_view};

verus! {

/// ASCII whitespace: space, tab, line feed, form feed, carriage return.
pub open spec fn is_ws(b: u8) -> bool {
    b == 32 || b == 9 || b == 10 || b == 12 || b == 13
}

pub open spec fn is_capital(b: u8) -> bool {
    65 <= b <= 90
}

/// The words of `t` from offset `i` on, as half-open ranges; `start` is the
/// start of a word already begun before `i`.
pub open spec fn words_from(t: Seq<u8>, i: int, start: Option<int>) -> Seq<(int, int)>
    decreases t.len() - i,
{
    if i >= t.len() {
        match start {
            Some(s) => seq![(s, t.len() as int)],
            None => seq![],
        }
    } else if is_ws(t[i]) {
        match start {
            Some(s) => seq![(s, i)] + words_from(t, i + 1, None),
            None => words_from(t, i + 1, None),
        }
    } else {
        words_from(t, i + 1, if start is None { Some(i) } else { start })
    }
}

/// The maximal runs of non-whitespace bytes of `t`, in order.
pub open spec fn words(t: Seq<u8>) -> Seq<(int, int)> {
    words_from(t, 0, None)
}

pub open spec fn spans_view(v: Seq<(usize, usize)>) -> Seq<(int, int)> {
    v.map_values(|p: (usize, usize)| (p.0 as int, p.1 as int))
}

pub fn is_space(b: u8) -> (r: bool)
    ensures
        r == is_ws(b),
{
    b == 32 || b == 9 || b == 10 || b == 12 || b == 13
}

/// Splits `text` into its whitespace-delimited words.
pub fn split_words(text: &[u8]) -> (r: Vec<(usize, usize)>)
    ensures
        spans_view(r@) == words(text@),
{
    let mut r: Vec<(usize, usize)> = Vec::new();
    let mut start: Option<usize> = None;
    let mut i: usize = 0;
    while i < text.len()
        invariant
            i <= text.len(),
            start matches Some(s) ==> s < i,
            words(text@) == spans_view(r@) + words_from(
                text@,
                i as int,
                match start { Some(s) => Some(s as int), None => None },
            ),
        decreases text.len() - i,
    {
        let ghost gs = match start { Some(s) => Some(s as int), None => None };
        if is_space(text[i]) {
            if let Some(s) = start {
                let ghost old_r = r@;
                r.push((s, i));
                assert(spans_view(r@) =~= spans_view(old_r) + seq![(s as int, i as int)]);
                assert(words(text@) == spans_view(r@) + words_from(text@, i + 1, None));
            }
            start = None;
        } else if start.is_none() {
            start = Some(i);
        }
        i = i + 1;
    }
    if let Some(s) = start {
        let ghost old_r = r@;
        r.push((s, text.len()));
        assert(spans_view(r@) =~= spans_view(old_r) + seq![(s as int, text@.len() as int)]);
    } else {
        assert(spans_view(r@) =~= spans_view(r@) + seq![]);
    }
    r
}


/// The region of a file the tokenizer is in.
#[derive(Clone, Copy, PartialEq, Eq, Structural, Debug)]
pub enum LexMode {
    /// Outside comments and proofs
    Normal,
    /// Inside `$( ... $)`
    Comment,
    /// After `$=`, before a compressed proof's label list
    Proof,
    /// Inside a compressed proof's `( ... )` label list
    ProofLabels,
    /// After a compressed proof's label list
    ProofData,
}

/// The tokenizer's state: its region, where the innermost open region (a
/// comment or a compressed proof's label list) started, and, inside a
/// comment, the region and start to go back to at its end.
#[derive(Clone, Copy, PartialEq, Eq, Structural, Debug)]
pub struct LexState {
    pub mode: LexMode,
    pub open: Span,
    pub resume: LexMode,
    pub resume_open: Span,
}

pub open spec fn initial_lex_state(file: usize) -> LexState {
    LexState {
        mode: LexMode::Normal,
        open: Span { file, start: 0, end: 0 },
        resume: LexMode::Normal,
        resume_open: Span { file, start: 0, end: 0 },
    }
}

/// The state after the keyword `k` at `sp`.
pub open spec fn after_keyword(st: LexState, k: Keyword, sp: Span) -> LexState {
    if k == Keyword::CommentStart {
        LexState { mode: LexMode::Comment, open: sp, resume: st.mode, resume_open: st.open }
    } else if st.mode == LexMode::ProofLabels {
        st
    } else if k == Keyword::ProofDetailsStart {
        LexState { mode: LexMode::Proof, ..st }
    } else if k == Keyword::End {
        LexState { mode: LexMode::Normal, ..st }
    } else {
        st
    }
}

fn after_keyword_exec(st: LexState, k: Keyword, sp: Span) -> (r: LexState)
    ensures
        r == after_keyword(st, k, sp),
{
    if k == Keyword::CommentStart {
        LexState { mode: LexMode::Comment, open: sp, resume: st.mode, resume_open: st.open }
    } else if st.mode == LexMode::ProofLabels {
        st
    } else if k == Keyword::ProofDetailsStart {
        LexState { mode: LexMode::Proof, ..st }
    } else if k == Keyword::End {
        LexState { mode: LexMode::Normal, ..st }
    } else {
        st
    }
}

/// The index of the first byte of `s` from `i` on that is not a capital
/// letter, or the length of `s` if there is none.
pub open spec fn first_non_capital_from(s: Seq<u8>, i: int) -> int
    decreases s.len() - i,
{
    if i >= s.len() {
        s.len() as int
    } else if !is_capital(s[i]) {
        i
    } else {
        first_non_capital_from(s, i + 1)
    }
}

/// Classifies the word at `w` of `t` in state `st`: the token it becomes and
/// the state after it, or the fault it is. Outside comments, a standalone
/// `(` or `)` is a compressed-proof marker wherever it stands; only a `(`
/// in a proof body opens a label list, and only a `)` in a label list
/// closes it. A comment goes back to the region it interrupted.
pub open spec fn lex_step(st: LexState, t: Seq<u8>, w: (int, int), file: usize) -> Result<(LexState, TokenV), ParseError> {
    let tx = t.subrange(w.0, w.1);
    let sp = Span { file, start: w.0 as usize, end: w.1 as usize };
    if st.mode == LexMode::Comment {
        if tx == seq![36u8, 41u8] {
            Ok((LexState { mode: st.resume, open: st.resume_open, ..st },
                TokenV { kind: TokenKind::Keyword(Keyword::CommentEnd), text: tx, span: sp }))
        } else {
            Ok((st, TokenV { kind: TokenKind::CommentedLiteral, text: tx, span: sp }))
        }
    } else if tx[0] == 36u8 {
        if tx.len() == 2 && keyword_spec(tx[1]) is Some {
            let k = keyword_spec(tx[1])->Some_0;
            Ok((after_keyword(st, k, sp), TokenV { kind: TokenKind::Keyword(k), text: tx, span: sp }))
        } else {
            Err(ParseError::UnknownKeyword(sp))
        }
    } else if tx == seq![40u8] {
        let st2 = if st.mode == LexMode::Proof { LexState { mode: LexMode::ProofLabels, open: sp, ..st } } else { st };
        Ok((st2, TokenV { kind: TokenKind::CompressedProofStart, text: tx, span: sp }))
    } else if tx == seq![41u8] {
        let st2 = if st.mode == LexMode::ProofLabels { LexState { mode: LexMode::ProofData, ..st } } else { st };
        Ok((st2, TokenV { kind: TokenKind::CompressedProofEnd, text: tx, span: sp }))
    } else if st.mode == LexMode::ProofData {
        let b = first_non_capital_from(tx, 0);
        if b == tx.len() {
            Ok((st, TokenV { kind: TokenKind::CompressedProofPart, text: tx, span: sp }))
        } else {
            Err(ParseError::InvalidCompressedProof(
                Span { file, start: (w.0 + b) as usize, end: (w.0 + b + 1) as usize },
            ))
        }
    } else {
        Ok((st, TokenV { kind: TokenKind::Word, text: tx, span: sp }))
    }
}

/// The state and tokens after the first `n` words `ws` of `t`.
pub open spec fn lex_prefix(t: Seq<u8>, ws: Seq<(int, int)>, file: usize, n: nat) -> Result<(LexState, Seq<TokenV>), ParseError>
    decreases n,
{
    if n == 0 {
        Ok((initial_lex_state(file), seq![]))
    } else {
        match lex_prefix(t, ws, file, (n - 1) as nat) {
            Err(e) => Err(e),
            Ok((st, ts)) => match lex_step(st, t, ws[n - 1], file) {
                Err(e) => Err(e),
                Ok((st2, tok)) => Ok((st2, ts.push(tok))),
            },
        }
    }
}

/// The synthetic end marker of a file of length `len`.
pub open spec fn eof_token(file: usize, len: int) -> TokenV {
    TokenV { kind: TokenKind::Eof, text: seq![], span: Span { file, start: len as usize, end: len as usize } }
}

/// The tokens of the file `t` with index `file`, ending with one `Eof`, or
/// the first fault in it.
pub open spec fn lex_spec(t: Seq<u8>, file: usize) -> Result<Seq<TokenV>, ParseError> {
    let ws = words(t);
    match lex_prefix(t, ws, file, ws.len()) {
        Err(e) => Err(e),
        Ok((st, ts)) => if st.mode == LexMode::Comment || st.mode == LexMode::ProofLabels {
            Err(ParseError::UnterminatedRegion(st.open))
        } else {
            Ok(ts.push(eof_token(file, t.len() as int)))
        },
    }
}

pub open spec fn tokens_result_view(r: Result<Vec<Token>, ParseError>) -> Result<Seq<TokenV>, ParseError> {
    match r {
        Ok(v) => Ok(tokens_view(v@)),
        Err(e) => Err(e),
    }
}

/// Copies the bytes `text[s..e]`.
pub fn copy_range(text: &[u8], s: usize, e: usize) -> (r: Vec<u8>)
    requires
        s <= e <= text@.len(),
    ensures
        r@ == text@.subrange(s as int, e as int),
{
    let mut r: Vec<u8> = Vec::new();
    let mut i: usize = s;
    while i < e
        invariant
            s <= i <= e <= text@.len(),
            r@ == text@.subrange(s as int, i as int),
        decreases e - i,
    {
        r.push(text[i]);
        assert(r@ =~= text@.subrange(s as int, i + 1));
        i = i + 1;
    }
    r
}

/// Classifies the word `text[s..e]` in state `st`.
fn lex_word(st: LexState, text: &[u8], s: usize, e: usize, file: usize) -> (r: Result<(LexState, Token), ParseError>)
    requires
        s < e <= text@.len(),
    ensures
        match lex_step(st, text@, (s as int, e as int), file) {
            Ok((st2, tok)) => r matches Ok((st3, tok3)) && st3 == st2 && tok3@ == tok,
            Err(err) => r == Err::<(LexState, Token), ParseError>(err),
        },
{
    let ghost tx = text@.subrange(s as int, e as int);
    let sp = Span { file, start: s, end: e };
    let len = e - s;
    if st.mode == LexMode::Comment {
        let is_end = len == 2 && text[s] == 36 && text[s + 1] == 41;
        proof {
            if is_end { assert(tx =~= seq![36u8, 41u8]); }
            if tx == seq![36u8, 41u8] { assert(tx[0] == 36 && tx[1] == 41); }
        }
        let tok_text = copy_range(text, s, e);
        if is_end {
            Ok((LexState { mode: st.resume, open: st.resume_open, ..st },
                Token { kind: TokenKind::Keyword(Keyword::CommentEnd), text: tok_text, span: sp }))
        } else {
            Ok((st, Token { kind: TokenKind::CommentedLiteral, text: tok_text, span: sp }))
        }
    } else if text[s] == 36 {
        let k = if len == 2 { keyword_from_suffix(text[s + 1]) } else { None };
        match k {
            Some(k) => {
                let st2 = after_keyword_exec(st, k, sp);
                let tok_text = copy_range(text, s, e);
                Ok((st2, Token { kind: TokenKind::Keyword(k), text: tok_text, span: sp }))
            },
            None => Err(ParseError::UnknownKeyword(sp)),
        }
    } else {
        let single = len == 1;
        proof {
            if single {
                assert(tx =~= seq![text@[s as int]]);
            }
            if tx == seq![40u8] || tx == seq![41u8] {
                assert(tx.len() == 1);
            }
        }
        if single && text[s] == 40 {
            let tok_text = copy_range(text, s, e);
            let st2 = if st.mode == LexMode::Proof { LexState { mode: LexMode::ProofLabels, open: sp, ..st } } else { st };
            Ok((st2, Token { kind: TokenKind::CompressedProofStart, text: tok_text, span: sp }))
        } else if single && text[s] == 41 {
            let tok_text = copy_range(text, s, e);
            let st2 = if st.mode == LexMode::ProofLabels { LexState { mode: LexMode::ProofData, ..st } } else { st };
            Ok((st2, Token { kind: TokenKind::CompressedProofEnd, text: tok_text, span: sp }))
        } else if st.mode == LexMode::ProofData {
            let mut i: usize = s;
            while i < e && 65 <= text[i] && text[i] <= 90
                invariant
                    s <= i <= e <= text@.len(),
                    tx == text@.subrange(s as int, e as int),
                    first_non_capital_from(tx, 0) == first_non_capital_from(tx, i - s),
                decreases e - i,
            {
                assert(tx[i - s] == text@[i as int]);
                i = i + 1;
            }
            if i < e {
                assert(tx[i - s] == text@[i as int]);
            }
            if i == e {
                let tok_text = copy_range(text, s, e);
                Ok((st, Token { kind: TokenKind::CompressedProofPart, text: tok_text, span: sp }))
            } else {
                Err(ParseError::InvalidCompressedProof(Span { file, start: i, end: i + 1 }))
            }
        } else {
            let tok_text = copy_range(text, s, e);
            Ok((st, Token { kind: TokenKind::Word, text: tok_text, span: sp }))
        }
    }
}

/// Tokenizes the file `text`, whose index in the source table is `file`:
/// one token per whitespace-delimited word, classified by region, then one
/// `Eof`. Fails on the first unknown keyword, the first invalid character
/// of compressed proof data, or a comment or label list left open.
pub fn tokenize(text: &[u8], file: usize) -> (r: Result<Vec<Token>, ParseError>)
    ensures
        tokens_result_view(r) == lex_spec(text@, file),
{
    let ws = split_words(text);
    let ghost gws = words(text@);
    let mut st = LexState {
        mode: LexMode::Normal,
        open: Span { file, start: 0, end: 0 },
        resume: LexMode::Normal,
        resume_open: Span { file, start: 0, end: 0 },
    };
    let mut out: Vec<Token> = Vec::new();
    let mut n: usize = 0;
    assert(tokens_view(out@) =~= seq![]);
    while n < ws.len()
        invariant
            n <= ws@.len(),
            spans_view(ws@) == gws,
            gws == words(text@),
            lex_prefix(text@, gws, file, n as nat) == Ok::<(LexState, Seq<TokenV>), ParseError>((st, tokens_view(out@))),
        decreases ws.len() - n,
    {
        let (s, e) = ws[n];
        proof {
            assert(gws[n as int] == (s as int, e as int));
            lemma_word_in_bounds(text@, n as int);
        }
        match lex_word(st, text, s, e, file) {
            Ok((st2, tok)) => {
                let ghost old_out = out@;
                out.push(tok);
                assert(tokens_view(out@) =~= tokens_view(old_out).push(tok@));
                st = st2;
            },
            Err(err) => {
                proof { lemma_lex_prefix_err(text@, gws, file, (n + 1) as nat, ws@.len() as nat); }
                return Err(err);
            },
        }
        n = n + 1;
    }
    if st.mode == LexMode::Comment || st.mode == LexMode::ProofLabels {
        return Err(ParseError::UnterminatedRegion(st.open));
    }
    let ghost old_out = out@;
    out.push(Token { kind: TokenKind::Eof, text: Vec::new(), span: Span { file, start: text.len(), end: text.len() } });
    assert(tokens_view(out@) =~= tokens_view(old_out).push(eof_token(file, text@.len() as int)));
    Ok(out)
}

/// Once the fold over the words fails, it stays failed with the same fault.
proof fn lemma_lex_prefix_err(t: Seq<u8>, ws: Seq<(int, int)>, file: usize, n: nat, m: nat)
    requires
        n <= m,
        lex_prefix(t, ws, file, n) is Err,
    ensures
        lex_prefix(t, ws, file, m) == lex_prefix(t, ws, file, n),
    decreases m - n,
{
    if n < m {
        lemma_lex_prefix_err(t, ws, file, n, (m - 1) as nat);
    }
}

/// Every word of `t` is a non-empty range inside `t`.
pub proof fn lemma_word_in_bounds(t: Seq<u8>, k: int)
    requires
        0 <= k < words(t).len(),
    ensures
        0 <= words(t)[k].0 < words(t)[k].1 <= t.len(),
{
    lemma_words_from_bounds(t, 0, None);
}

pub proof fn lemma_words_from_bounds(t: Seq<u8>, i: int, start: Option<int>)
    requires
        0 <= i,
        start matches Some(s) ==> 0 <= s < i && i <= t.len(),
    ensures
        forall|k: int| 0 <= k < words_from(t, i, start).len() ==>
            0 <= (#[trigger] words_from(t, i, start)[k]).0 < words_from(t, i, start)[k].1 <= t.len(),
    decreases t.len() - i,
{
    if i >= t.len() {
        if let Some(s) = start {
            assert(words_from(t, i, start) == seq![(s, t.len() as int)]);
        } else {
            assert(words_from(t, i, start) == Seq::<(int, int)>::empty());
        }
    } else if is_ws(t[i]) {
        lemma_words_from_bounds(t, i + 1, None);
        if let Some(s) = start {
            let rest = words_from(t, i + 1, None);
            assert forall|k: int| 0 <= k < words_from(t, i, start).len() implies
                0 <= (#[trigger] words_from(t, i, start)[k]).0 < words_from(t, i, start)[k].1 <= t.len() by {
                if k > 0 {
                    assert(words_from(t, i, start)[k] == rest[k - 1]);
                }
            }
        } else {
            assert(words_from(t, i, start) == words_from(t, i + 1, None));
        }
    } else {
        let st2 = if start is None { Some(i) } else { start };
        lemma_words_from_bounds(t, i + 1, st2);
        assert(words_from(t, i, start) == words_from(t, i + 1, st2));
    }
}

} // verus!

verus! {

/// Where the next byte of an open file will be read, zero-indexed.
#[derive(Clone, Copy, PartialEq, Eq, Structural, Debug)]
pub struct LexerLocation {
    pub file: usize,
    pub zi_line: usize,
    pub zi_column: usize,
}

impl LexerLocation {
    pub fn new(file: usize, zi_line: usize, zi_column: usize) -> (r: LexerLocation)
        ensures
            r == (LexerLocation { file, zi_line, zi_column }),
    {
        LexerLocation { file, zi_line, zi_column }
    }
}

/// A byte cursor over the files of a source table. `progress` holds, for
/// each open file (the innermost last), the location of its next byte, and
/// `offsets` the matching byte offsets.
pub struct Lexer {
    pub files_included: Vec<SourceText>,
    pub progress: Vec<LexerLocation>,
    pub offsets: Vec<usize>,
}

/// `loc` is the line and column of byte `offset` of `content`.
pub open spec fn location_matches(content: Seq<u8>, offset: int, loc: LexerLocation) -> bool {
    &&& 0 <= offset <= content.len()
    &&& loc.zi_line == count_newlines(content.subrange(0, offset))
    &&& loc.zi_column == offset - line_start(content.subrange(0, offset))
}

impl Lexer {
    /// Every open file is in the table, and each location agrees with its offset.
    pub open spec fn wf(&self) -> bool {
        &&& self.progress@.len() == self.offsets@.len()
        &&& self.progress@.len() > 0
        &&& forall|i: int| 0 <= i < self.progress@.len() ==> {
            let loc = #[trigger] self.progress@[i];
            &&& loc.file < self.files_included@.len()
            &&& location_matches(self.files_included@[loc.file as int].content@, self.offsets@[i] as int, loc)
        }
    }

    /// The index of the innermost open file.
    pub open spec fn top(&self) -> int {
        self.progress@.len() - 1
    }

    /// The contents of the innermost open file.
    pub open spec fn top_content(&self) -> Seq<u8> {
        self.files_included@[self.progress@[self.top()].file as int].content@
    }

    /// A cursor at the start of file `root` of `files`; `None` if the table
    /// has no such file.
    pub fn try_new(files: Vec<SourceText>, root: usize) -> (r: Option<Lexer>)
        ensures
            r is Some <==> root < files@.len(),
            r matches Some(l) ==> l.wf() && l.files_included@ == files@
                && l.progress@ == seq![LexerLocation { file: root, zi_line: 0, zi_column: 0 }]
                && l.offsets@ == seq![0usize],
    {
        if root < files.len() {
            let l = Lexer { files_included: files, progress: vec![LexerLocation::new(root, 0, 0)], offsets: vec![0] };
            assert(l.files_included@[root as int].content@.subrange(0, 0) =~= Seq::<u8>::empty());
            Some(l)
        } else {
            None
        }
    }

    /// Reads the next byte of the innermost open file and moves past it,
    /// keeping its line and column; `None` once that file is exhausted.
    pub fn next_char(&mut self) -> (r: Option<u8>)
        requires
            old(self).wf(),
        ensures
            final(self).wf(),
            final(self).files_included@ == old(self).files_included@,
            final(self).progress@.len() == old(self).progress@.len(),
            final(self).top_content() == old(self).top_content(),
            forall|i: int| 0 <= i < old(self).top() ==> final(self).progress@[i] == old(self).progress@[i]
                && final(self).offsets@[i] == old(self).offsets@[i],
            final(self).progress@[final(self).top()].file == old(self).progress@[old(self).top()].file,
            old(self).offsets@[old(self).top()] < old(self).top_content().len() ==> r == Some(
                old(self).top_content()[old(self).offsets@[old(self).top()] as int],
            ) && final(self).offsets@[final(self).top()] == old(self).offsets@[old(self).top()] + 1,
            old(self).offsets@[old(self).top()] >= old(self).top_content().len() ==> r is None
                && final(self).offsets@ == old(self).offsets@ && final(self).progress@ == old(self).progress@,
    {
        let top = self.progress.len() - 1;
        let loc = self.progress[top];
        let off = self.offsets[top];
        assert(self.progress@[top as int] == loc);
        let content = &self.files_included[loc.file].content;
        if off >= content.len() {
            return None;
        }
        let b = content[off];
        let ghost c = content@;
        proof {
            assert(c.subrange(0, off + 1).drop_last() =~= c.subrange(0, off as int));
            lemma_counts_bounded(c.subrange(0, off as int));
        }
        let next = if b == 10 {
            LexerLocation::new(loc.file, loc.zi_line + 1, 0)
        } else {
            LexerLocation::new(loc.file, loc.zi_line, loc.zi_column + 1)
        };
        self.progress.set(top, next);
        self.offsets.set(top, off + 1);
        assert forall|i: int| 0 <= i < self.progress@.len() implies {
            let loc = #[trigger] self.progress@[i];
            &&& loc.file < self.files_included@.len()
            &&& location_matches(self.files_included@[loc.file as int].content@, self.offsets@[i] as int, loc)
        } by {
            if i != top {
                assert(self.progress@[i] == old(self).progress@[i]);
            }
        }
        Some(b)
    }
}

} // verus!
