//! File inclusion: replaces each `$[ name $]` directive by the tokens of the
//! named file, depth first, refusing to reopen a file that is still open.
//!
//! Files come from a source table that the caller fills. When a directive
//! names a file that the table does not hold yet, resolution stops with
//! `FileNotLoaded`; the caller can load the file (its path is
//! `included_path` of the directive) and resolve again.

use vstd::prelude::*;
use crate::token::{Keyword, ParseError, Span, Token, TokenKind, TokenV, tokens_view};
use crate::lexer::{lex_spec, tokenize, tokens_result_view};
use crate::path::{normalize, normalize_spec};
use crate::builder::{build_spec, build_productions, productions_result_view, SyntaxProduction};

verus! {

/// The loaded content of one file and its path.
#[derive(Debug)]
pub struct SourceText {
    pub path: Vec<u8>,
    pub content: Vec<u8>,
}

/// The index of the last `/` in `p`, or -1.
pub open spec fn last_slash(p: Seq<u8>) -> int
    decreases p.len(),
{
    if p.len() == 0 {
        -1
    } else if p.last() == 47u8 {
        p.len() - 1
    } else {
        last_slash(p.drop_last())
    }
}

/// The directory part of `p`, with its trailing `/`; empty for a bare name.
pub open spec fn dir_of(p: Seq<u8>) -> Seq<u8> {
    p.subrange(0, last_slash(p) + 1)
}

/// `name` as written in the file at `including`, before normalisation: an
/// absolute name stands as it is, any other is taken in the including
/// file's directory.
pub open spec fn joined_path(including: Seq<u8>, name: Seq<u8>) -> Seq<u8> {
    if name.len() > 0 && name[0] == 47u8 {
        name
    } else {
        dir_of(including) + name
    }
}

/// The path of `name` as written in the file at `including`, in normal
/// form, so that `./a.mm`, `d/../a.mm` and `a.mm` name one file.
pub open spec fn resolve_path_spec(including: Seq<u8>, name: Seq<u8>) -> Seq<u8> {
    normalize_spec(joined_path(including, name))
}

proof fn lemma_last_slash_bounds(p: Seq<u8>)
    ensures
        -1 <= last_slash(p) < p.len(),
    decreases p.len(),
{
    if p.len() > 0 && p.last() != 47u8 {
        lemma_last_slash_bounds(p.drop_last());
    }
}

/// Resolves `name` against the path of the file that includes it.
pub fn resolve_path(including: &[u8], name: &[u8]) -> (r: Vec<u8>)
    ensures
        r@ == resolve_path_spec(including@, name@),
{
    let mut r: Vec<u8> = Vec::new();
    if name.len() == 0 || name[0] != 47 {
        let mut i: usize = including.len();
        assert(including@.subrange(0, i as int) =~= including@);
        while i > 0 && including[i - 1] != 47
            invariant
                i <= including@.len(),
                last_slash(including@) == last_slash(including@.subrange(0, i as int)),
            decreases i,
        {
            assert(including@.subrange(0, i as int).drop_last() =~= including@.subrange(0, i - 1));
            i = i - 1;
        }
        let mut k: usize = 0;
        while k < i
            invariant
                k <= i <= including@.len(),
                r@ == including@.subrange(0, k as int),
            decreases i - k,
        {
            r.push(including[k]);
            assert(r@ =~= including@.subrange(0, k + 1));
            k = k + 1;
        }
        assert(r@ == dir_of(including@));
    }
    let ghost prefix = r@;
    let mut j: usize = 0;
    while j < name.len()
        invariant
            j <= name@.len(),
            r@ == prefix + name@.subrange(0, j as int),
        decreases name.len() - j,
    {
        r.push(name[j]);
        assert(r@ =~= prefix + name@.subrange(0, j + 1));
        j = j + 1;
    }
    assert(name@.subrange(0, name@.len() as int) =~= name@);
    assert(prefix.len() == 0 ==> r@ =~= name@);
    assert(r@ == joined_path(including@, name@));
    normalize(r.as_slice())
}

/// Whether two byte strings are equal.
pub fn bytes_equal(a: &[u8], b: &[u8]) -> (r: bool)
    ensures
        r == (a@ == b@),
{
    if a.len() != b.len() {
        return false;
    }
    let mut i: usize = 0;
    while i < a.len()
        invariant
            i <= a@.len() == b@.len(),
            a@.subrange(0, i as int) == b@.subrange(0, i as int),
        decreases a.len() - i,
    {
        if a[i] != b[i] {
            assert(a@[i as int] != b@[i as int]);
            return false;
        }
        assert(a@.subrange(0, i + 1) =~= a@.subrange(0, i as int).push(a@[i as int]));
        assert(b@.subrange(0, i + 1) =~= b@.subrange(0, i as int).push(b@[i as int]));
        i = i + 1;
    }
    assert(a@ =~= a@.subrange(0, i as int));
    assert(b@ =~= b@.subrange(0, i as int));
    true
}

/// The first index from `k` on of a file with path `p`.
pub open spec fn find_from(files: Seq<SourceText>, p: Seq<u8>, k: int) -> Option<int>
    decreases files.len() - k,
{
    if k < 0 || k >= files.len() {
        None
    } else if files[k].path@ == p {
        Some(k)
    } else {
        find_from(files, p, k + 1)
    }
}

proof fn lemma_find_from_bounds(files: Seq<SourceText>, p: Seq<u8>, k: int)
    ensures
        find_from(files, p, k) matches Some(g) ==> 0 <= g < files.len(),
    decreases files.len() - k,
{
    if 0 <= k < files.len() && files[k].path@ != p {
        lemma_find_from_bounds(files, p, k + 1);
    }
}

/// The index of the first file of the table with path `p`.
pub fn find_file(files: &Vec<SourceText>, p: &[u8]) -> (r: Option<usize>)
    ensures
        match find_from(files@, p@, 0) {
            Some(g) => r == Some(g as usize) && 0 <= g < files@.len(),
            None => r is None,
        },
{
    proof { lemma_find_from_bounds(files@, p@, 0); }
    let mut k: usize = 0;
    while k < files.len()
        invariant
            k <= files@.len(),
            find_from(files@, p@, 0) == find_from(files@, p@, k as int),
        decreases files.len() - k,
    {
        if bytes_equal(files[k].path.as_slice(), p) {
            return Some(k);
        }
        k = k + 1;
    }
    None
}

/// `acc` followed by the tokens of `r`, if `r` succeeded.
pub open spec fn prepend(acc: Seq<TokenV>, r: Result<Seq<TokenV>, ParseError>) -> Result<Seq<TokenV>, ParseError> {
    match r {
        Ok(x) => Ok(acc + x),
        Err(e) => Err(e),
    }
}

/// The tokens `toks` of file `f` from index `i` on, with every inclusion
/// directive replaced by the tokens of the file it names, depth first;
/// `stack` holds the files open around `f`, `f` included.
pub open spec fn expand_from(files: Seq<SourceText>, f: int, toks: Seq<TokenV>, stack: Seq<usize>, i: int) -> Result<Seq<TokenV>, ParseError>
    decreases files.len() - stack.len(), toks.len() - i,
{
    if i < 0 || i >= toks.len() {
        Ok(seq![])
    } else if toks[i].kind == TokenKind::Keyword(Keyword::FileInclusionStart) {
        if i + 2 < toks.len() && toks[i + 1].kind == TokenKind::Word
            && toks[i + 2].kind == TokenKind::Keyword(Keyword::FileInclusionEnd) {
            let name = toks[i + 1];
            match find_from(files, resolve_path_spec(files[f].path@, name.text), 0) {
                None => Err(ParseError::FileNotLoaded(name.span)),
                Some(g) => if stack.contains(g as usize) || stack.len() >= files.len() {
                    Err(ParseError::CyclicInclusion { file: g as usize, at: name.span })
                } else {
                    match lex_spec(files[g].content@, g as usize) {
                        Err(e) => Err(e),
                        Ok(gt) => match expand_from(files, g, gt, stack.push(g as usize), 0) {
                            Err(e) => Err(e),
                            Ok(inner) => prepend(inner, expand_from(files, f, toks, stack, i + 3)),
                        },
                    }
                },
            }
        } else {
            Err(ParseError::MalformedInclusion(toks[i].span))
        }
    } else {
        prepend(seq![toks[i]], expand_from(files, f, toks, stack, i + 1))
    }
}

/// The whole database rooted at file `root`: its tokens with all inclusions
/// resolved, each file's tokens ending with its own `Eof`.
pub open spec fn resolve_spec(files: Seq<SourceText>, root: int) -> Result<Seq<TokenV>, ParseError> {
    match lex_spec(files[root].content@, root as usize) {
        Err(e) => Err(e),
        Ok(ts) => expand_from(files, root, ts, seq![root as usize], 0),
    }
}

/// The productions of the database rooted at file `root`.
pub open spec fn parse_spec(files: Seq<SourceText>, root: int) -> Result<Seq<Seq<TokenV>>, ParseError> {
    match resolve_spec(files, root) {
        Err(e) => Err(e),
        Ok(ts) => build_spec(ts),
    }
}

proof fn lemma_prepend_assoc(a: Seq<TokenV>, b: Seq<TokenV>, r: Result<Seq<TokenV>, ParseError>)
    ensures
        prepend(a, prepend(b, r)) == prepend(a + b, r),
{
    if let Ok(x) = r {
        assert(a + (b + x) =~= (a + b) + x);
    }
}

/// Appends to `out` the tokens of file `f`, `toks`, with inclusions
/// resolved; `stack` holds the open files, `f` last.
fn expand(files: &Vec<SourceText>, f: usize, toks: &Vec<Token>, stack: &mut Vec<usize>, out: &mut Vec<Token>) -> (r: Result<(), ParseError>)
    requires
        f < files@.len(),
    ensures
        match expand_from(files@, f as int, tokens_view(toks@), old(stack)@, 0) {
            Ok(ts) => r is Ok && tokens_view(final(out)@) == tokens_view(old(out)@) + ts
                && final(stack)@ == old(stack)@,
            Err(e) => r == Err::<(), ParseError>(e),
        },
    decreases files@.len() - old(stack)@.len(),
{
    let ghost tv = tokens_view(toks@);
    let ghost st0 = stack@;
    let ghost out0 = tokens_view(out@);
    let ghost mut acc: Seq<TokenV> = seq![];
    let mut i: usize = 0;
    assert(prepend(acc, expand_from(files@, f as int, tv, st0, 0)) =~= expand_from(files@, f as int, tv, st0, 0)) by {
        if let Ok(x) = expand_from(files@, f as int, tv, st0, 0) { assert(acc + x =~= x); }
    }
    while i < toks.len()
        invariant
            f < files@.len(),
            i <= toks@.len(),
            tv == tokens_view(toks@),
            stack@ == st0,
            st0 == old(stack)@,
            out0 == tokens_view(old(out)@),
            tokens_view(out@) == out0 + acc,
            expand_from(files@, f as int, tv, st0, 0) == prepend(acc, expand_from(files@, f as int, tv, st0, i as int)),
        decreases toks.len() - i,
    {
        let k = toks[i].kind;
        assert(tv[i as int] == toks@[i as int]@);
        if k == TokenKind::Keyword(Keyword::FileInclusionStart) {
            if toks.len() - i > 2 {
                assert(tv[i + 1] == toks@[i + 1]@);
                assert(tv[i + 2] == toks@[i + 2]@);
            }
            if toks.len() - i > 2 && toks[i + 1].kind == TokenKind::Word
                && toks[i + 2].kind == TokenKind::Keyword(Keyword::FileInclusionEnd) {
                let name = &toks[i + 1];
                let p = resolve_path(files[f].path.as_slice(), name.text.as_slice());
                match find_file(files, p.as_slice()) {
                    None => {
                        return Err(ParseError::FileNotLoaded(name.span));
                    },
                    Some(g) => {
                        let mut open = false;
                        let mut j: usize = 0;
                        while j < stack.len()
                            invariant
                                j <= stack@.len(),
                                open == exists|m: int| 0 <= m < j && stack@[m] == g,
                            decreases stack.len() - j,
                        {
                            if stack[j] == g {
                                open = true;
                            }
                            j = j + 1;
                        }
                        if open || stack.len() >= files.len() {
                            return Err(ParseError::CyclicInclusion { file: g, at: name.span });
                        }
                        match tokenize(files[g].content.as_slice(), g) {
                            Err(e) => {
                                return Err(e);
                            },
                            Ok(gt) => {
                                let ghost gtv = tokens_view(gt@);
                                let ghost before = tokens_view(out@);
                                stack.push(g);
                                let res = expand(files, g, &gt, stack, out);
                                match res {
                                    Err(e) => {
                                        return Err(e);
                                    },
                                    Ok(()) => {
                                        let ghost inner = expand_from(files@, g as int, gtv, st0.push(g), 0)->Ok_0;
                                        stack.pop();
                                        assert(stack@ =~= st0);
                                        proof {
                                            lemma_prepend_assoc(acc, inner, expand_from(files@, f as int, tv, st0, i + 3));
                                            acc = acc + inner;
                                            assert(tokens_view(out@) =~= out0 + acc);
                                        }
                                        i = i + 3;
                                    },
                                }
                            },
                        }
                    },
                }
            } else {
                return Err(ParseError::MalformedInclusion(toks[i].span));
            }
        } else {
            let ghost before = tokens_view(out@);
            let t = toks[i].duplicate();
            out.push(t);
            proof {
                assert(tokens_view(out@) =~= before.push(tv[i as int]));
                lemma_prepend_assoc(acc, seq![tv[i as int]], expand_from(files@, f as int, tv, st0, i + 1));
                acc = acc + seq![tv[i as int]];
                assert(tokens_view(out@) =~= out0 + acc);
            }
            i = i + 1;
        }
    }
    assert(acc + seq![] =~= acc);
    Ok(())
}

/// Tokenizes the database rooted at file `root` of the table, resolving
/// every inclusion directive.
pub fn resolve(files: &Vec<SourceText>, root: usize) -> (r: Result<Vec<Token>, ParseError>)
    requires
        root < files@.len(),
    ensures
        tokens_result_view(r) == resolve_spec(files@, root as int),
{
    match tokenize(files[root].content.as_slice(), root) {
        Err(e) => Err(e),
        Ok(ts) => {
            let mut stack: Vec<usize> = vec![root];
            let mut out: Vec<Token> = Vec::new();
            assert(stack@ =~= seq![root]);
            assert(tokens_view(out@) =~= seq![]);
            let res = expand(files, root, &ts, &mut stack, &mut out);
            match res {
                Err(e) => Err(e),
                Ok(()) => {
                    assert(seq![] + tokens_view(out@) =~= tokens_view(out@));
                    Ok(out)
                },
            }
        },
    }
}

/// The path of the file that an inclusion directive names, given the span
/// of the name in the directive (as `FileNotLoaded` reports it); `None` if
/// the span lies outside the table.
pub fn included_path(files: &Vec<SourceText>, at: Span) -> (r: Option<Vec<u8>>)
    ensures
        match r {
            Some(p) => at.file < files@.len() && at.start <= at.end <= files@[at.file as int].content@.len()
                && p@ == resolve_path_spec(files@[at.file as int].path@,
                    files@[at.file as int].content@.subrange(at.start as int, at.end as int)),
            None => !(at.file < files@.len() && at.start <= at.end <= files@[at.file as int].content@.len()),
        },
{
    if at.file < files.len() && at.start <= at.end && at.end <= files[at.file].content.len() {
        let src = &files[at.file];
        let name = crate::lexer::copy_range(src.content.as_slice(), at.start, at.end);
        Some(resolve_path(src.path.as_slice(), name.as_slice()))
    } else {
        None
    }
}

/// Parses the database rooted at file `root` of the table into its
/// productions.
pub fn parse_database(files: &Vec<SourceText>, root: usize) -> (r: Result<Vec<SyntaxProduction>, ParseError>)
    requires
        root < files@.len(),
    ensures
        productions_result_view(r) == parse_spec(files@, root as int),
{
    match resolve(files, root) {
        Err(e) => Err(e),
        Ok(ts) => build_productions(&ts),
    }
}

} // verus!
