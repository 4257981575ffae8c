//! Laws that relate the stages of the front end to each other and to the
//! text of the files.

use vstd::prelude::*;
use crate::token::{Keyword, TokenKind, TokenV};
use crate::lexer::{is_ws, words, words_from, lex_prefix, lex_spec, lex_step, eof_token};
use crate::builder::{build_prefix, build_spec, BuildMode, BuildState};
use crate::resolver::{expand_from, resolve_spec, parse_spec, SourceText};

verus! {

/// The bytes of `t` from offset `i` on, whitespace left out.
pub open spec fn strip_from(t: Seq<u8>, i: int) -> Seq<u8>
    decreases t.len() - i,
{
    if i < 0 || i >= t.len() {
        seq![]
    } else if is_ws(t[i]) {
        strip_from(t, i + 1)
    } else {
        seq![t[i]] + strip_from(t, i + 1)
    }
}

/// The bytes of `t` with all whitespace left out.
pub open spec fn strip_ws(t: Seq<u8>) -> Seq<u8> {
    strip_from(t, 0)
}

/// The texts of the ranges `ws` of `t`, one after the other.
pub open spec fn words_text(t: Seq<u8>, ws: Seq<(int, int)>) -> Seq<u8>
    decreases ws.len(),
{
    if ws.len() == 0 {
        seq![]
    } else {
        words_text(t, ws.drop_last()) + t.subrange(ws.last().0, ws.last().1)
    }
}

/// The text a token contributes to its file; `Eof` contributes nothing.
pub open spec fn token_text(tok: TokenV) -> Seq<u8> {
    if tok.kind == TokenKind::Eof { seq![] } else { tok.text }
}

/// The texts of the tokens `ts`, one after the other.
pub open spec fn tokens_text(ts: Seq<TokenV>) -> Seq<u8>
    decreases ts.len(),
{
    if ts.len() == 0 {
        seq![]
    } else {
        tokens_text(ts.drop_last()) + token_text(ts.last())
    }
}

/// The texts of all tokens of the productions `ps`, one after the other.
pub open spec fn productions_text(ps: Seq<Seq<TokenV>>) -> Seq<u8>
    decreases ps.len(),
{
    if ps.len() == 0 {
        seq![]
    } else {
        productions_text(ps.drop_last()) + tokens_text(ps.last())
    }
}

/// The number of tokens of class `k` in `ts`.
pub open spec fn count_kind(ts: Seq<TokenV>, k: TokenKind) -> nat
    decreases ts.len(),
{
    if ts.len() == 0 {
        0
    } else {
        count_kind(ts.drop_last(), k) + if ts.last().kind == k { 1nat } else { 0nat }
    }
}

/// The tokens of the file `root` of the table, which must tokenize.
pub open spec fn file_tokens(files: Seq<SourceText>, root: usize) -> Seq<TokenV> {
    lex_spec(files[root as int].content@, root)->Ok_0
}

/// No inclusion directive stands among `ts`.
pub open spec fn no_inclusion(ts: Seq<TokenV>) -> bool {
    forall|i: int| 0 <= i < ts.len() ==> ts[i].kind != TokenKind::Keyword(Keyword::FileInclusionStart)
        && ts[i].kind != TokenKind::Keyword(Keyword::FileInclusionEnd)
}

/// A database held in one file with no inclusion directive, which parses,
/// has one production for each statement (each `$.`), each comment (each
/// `$)`) and each scope marker (each `${` and `$}`); and the tokens of its
/// productions, read in order, spell its text with the whitespace left out.
pub proof fn single_file_productions(files: Seq<SourceText>, root: usize)
    requires
        root < files.len(),
        lex_spec(files[root as int].content@, root) is Ok,
        no_inclusion(file_tokens(files, root)),
        parse_spec(files, root as int) is Ok,
    ensures
        parse_spec(files, root as int)->Ok_0.len() == count_kind(file_tokens(files, root), TokenKind::Keyword(Keyword::End))
            + count_kind(file_tokens(files, root), TokenKind::Keyword(Keyword::CommentEnd))
            + count_kind(file_tokens(files, root), TokenKind::Keyword(Keyword::ScopeStart))
            + count_kind(file_tokens(files, root), TokenKind::Keyword(Keyword::ScopeEnd)),
        productions_text(parse_spec(files, root as int)->Ok_0) == strip_ws(files[root as int].content@),
{
    let t = files[root as int].content@;
    let ts = file_tokens(files, root);
    lemma_expand_plain(files, root as int, ts, seq![root], 0);
    assert(ts.subrange(0, ts.len() as int) =~= ts);
    assert(resolve_spec(files, root as int) == Ok::<Seq<TokenV>, crate::token::ParseError>(ts));
    lemma_build_prefix_facts(ts, ts.len());
    assert(ts.take(ts.len() as int) =~= ts);
    lemma_count_absent(ts, TokenKind::Keyword(Keyword::FileInclusionEnd));
    let ws = words(t);
    assert forall|k: int| 0 <= k < ws.len() implies 0 <= #[trigger] ws[k].0 < ws[k].1 <= t.len() by {
        crate::lexer::lemma_word_in_bounds(t, k);
    }
    lemma_lex_text(t, ws, root, ws.len());
    assert(ws.take(ws.len() as int) =~= ws);
    let lexed = lex_prefix(t, ws, root, ws.len())->Ok_0.1;
    assert(ts == lexed.push(eof_token(root, t.len() as int)));
    assert(ts.drop_last() =~= lexed);
    lemma_words_from_text(t, 0, None);
}

/// Without inclusion directives, resolution hands the tokens on unchanged.
proof fn lemma_expand_plain(files: Seq<SourceText>, f: int, toks: Seq<TokenV>, stack: Seq<usize>, i: int)
    requires
        0 <= i <= toks.len(),
        no_inclusion(toks),
    ensures
        expand_from(files, f, toks, stack, i) == Ok::<Seq<TokenV>, crate::token::ParseError>(toks.subrange(i, toks.len() as int)),
    decreases toks.len() - i,
{
    if i < toks.len() {
        lemma_expand_plain(files, f, toks, stack, i + 1);
        assert(seq![toks[i]] + toks.subrange(i + 1, toks.len() as int) =~= toks.subrange(i, toks.len() as int));
    } else {
        assert(toks.subrange(i, toks.len() as int) =~= seq![]);
    }
}

proof fn lemma_count_absent(ts: Seq<TokenV>, k: TokenKind)
    requires
        forall|i: int| 0 <= i < ts.len() ==> ts[i].kind != k,
    ensures
        count_kind(ts, k) == 0,
    decreases ts.len(),
{
    if ts.len() > 0 {
        lemma_count_absent(ts.drop_last(), k);
    }
}

/// What the builder has consumed after `n` tokens: one production per
/// closing token, and every token's text in the productions or the open one.
proof fn lemma_build_prefix_facts(ts: Seq<TokenV>, n: nat)
    requires
        n <= ts.len(),
        build_prefix(ts, n) is Ok,
    ensures
        ({
            let (st, ps) = build_prefix(ts, n)->Ok_0;
            let pre = ts.take(n as int);
            &&& ps.len() == count_kind(pre, TokenKind::Keyword(Keyword::End))
                + count_kind(pre, TokenKind::Keyword(Keyword::CommentEnd))
                + count_kind(pre, TokenKind::Keyword(Keyword::ScopeStart))
                + count_kind(pre, TokenKind::Keyword(Keyword::ScopeEnd))
                + count_kind(pre, TokenKind::Keyword(Keyword::FileInclusionEnd))
            &&& productions_text(ps) + tokens_text(st.cur) == tokens_text(pre)
            &&& st.mode == BuildMode::Idle ==> st.cur.len() == 0
        }),
    decreases n,
{
    if n == 0 {
        assert(ts.take(0) =~= seq![]);
    } else {
        lemma_build_prefix_facts(ts, (n - 1) as nat);
        let (st, ps) = build_prefix(ts, (n - 1) as nat)->Ok_0;
        let pre = ts.take(n as int);
        assert(pre.drop_last() =~= ts.take(n - 1));
        assert(pre.last() == ts[n - 1]);
        let t = ts[n - 1];
        let (st2, ps2) = build_prefix(ts, n)->Ok_0;
        if ps2.len() > ps.len() {
            assert(ps2.drop_last() =~= ps);
        }
        assert forall|x: TokenV| #[trigger] tokens_text(st.cur.push(x)) == tokens_text(st.cur) + token_text(x) by {
            assert(st.cur.push(x).drop_last() =~= st.cur);
        }
        assert forall|x: TokenV| #[trigger] tokens_text(seq![x]) == token_text(x) by {
            let e = seq![x].drop_last();
            assert(e =~= Seq::<TokenV>::empty());
            assert(tokens_text(e) == Seq::<u8>::empty());
            assert(Seq::<u8>::empty() + token_text(x) =~= token_text(x));
        }
        assert forall|p: Seq<TokenV>| #[trigger] productions_text(ps.push(p)) == productions_text(ps) + tokens_text(p) by {
            assert(ps.push(p).drop_last() =~= ps);
        }
        let pt = productions_text(ps);
        let ct = tokens_text(st.cur);
        let tt = token_text(t);
        assert(tokens_text(pre) == tokens_text(ts.take(n - 1)) + tt);
        assert(pt + ct + tt =~= pt + (ct + tt));
        if st.mode == BuildMode::Idle {
            assert(st.cur =~= Seq::<TokenV>::empty());
            assert(ct =~= Seq::<u8>::empty());
            assert(pt + ct =~= pt);
            assert(pt + tt =~= pt + (Seq::<u8>::empty() + tt));
        }
        if st2.mode == BuildMode::Idle {
            assert(st2.cur =~= Seq::<TokenV>::empty());
            assert(productions_text(ps2) + tokens_text(st2.cur) =~= productions_text(ps2));
        }
        if t.kind == TokenKind::Eof {
            assert(tt =~= Seq::<u8>::empty());
            assert(pt + ct + tt =~= pt + ct);
        }
        assert(ps2.len() == count_kind(pre, TokenKind::Keyword(Keyword::End))
                + count_kind(pre, TokenKind::Keyword(Keyword::CommentEnd))
                + count_kind(pre, TokenKind::Keyword(Keyword::ScopeStart))
                + count_kind(pre, TokenKind::Keyword(Keyword::ScopeEnd))
                + count_kind(pre, TokenKind::Keyword(Keyword::FileInclusionEnd)));
        assert(st2.mode == BuildMode::Idle ==> st2.cur.len() == 0);
        assert(productions_text(ps2) + tokens_text(st2.cur) == tokens_text(pre));
    }
}

/// The tokens of the first `n` words spell those words.
proof fn lemma_lex_text(t: Seq<u8>, ws: Seq<(int, int)>, file: usize, n: nat)
    requires
        n <= ws.len(),
        forall|k: int| 0 <= k < ws.len() ==> 0 <= #[trigger] ws[k].0 < ws[k].1 <= t.len(),
        lex_prefix(t, ws, file, n) is Ok,
    ensures
        tokens_text(lex_prefix(t, ws, file, n)->Ok_0.1) == words_text(t, ws.take(n as int)),
    decreases n,
{
    if n == 0 {
        assert(ws.take(0) =~= seq![]);
    } else {
        lemma_lex_text(t, ws, file, (n - 1) as nat);
        let ts = lex_prefix(t, ws, file, (n - 1) as nat)->Ok_0.1;
        let ts2 = lex_prefix(t, ws, file, n)->Ok_0.1;
        assert(ws.take(n as int).drop_last() =~= ws.take(n - 1));
        assert(ts2.drop_last() =~= ts);
        let w = ws[n - 1];
        assert(ts2.last().text == t.subrange(w.0, w.1));
        assert(ts2.last().kind != TokenKind::Eof);
    }
}

proof fn lemma_words_text_single(t: Seq<u8>, x: (int, int))
    ensures
        words_text(t, seq![x]) == t.subrange(x.0, x.1),
{
    let e = seq![x].drop_last();
    assert(e =~= Seq::<(int, int)>::empty());
    assert(words_text(t, e) == Seq::<u8>::empty());
    assert(Seq::<u8>::empty() + t.subrange(x.0, x.1) =~= t.subrange(x.0, x.1));
}

proof fn lemma_words_text_concat(t: Seq<u8>, a: Seq<(int, int)>, b: Seq<(int, int)>)
    ensures
        words_text(t, a + b) == words_text(t, a) + words_text(t, b),
    decreases b.len(),
{
    if b.len() == 0 {
        assert(a + b =~= a);
        assert(words_text(t, a) + seq![] =~= words_text(t, a));
    } else {
        lemma_words_text_concat(t, a, b.drop_last());
        assert((a + b).drop_last() =~= a + b.drop_last());
        assert(words_text(t, a) + words_text(t, b.drop_last()) + t.subrange(b.last().0, b.last().1)
            =~= words_text(t, a) + (words_text(t, b.drop_last()) + t.subrange(b.last().0, b.last().1)));
    }
}

/// The words of `t` from `i` on spell `t` from `i` on without whitespace,
/// after the part `t[s..i]` of a word already begun.
proof fn lemma_words_from_text(t: Seq<u8>, i: int, start: Option<int>)
    requires
        0 <= i,
        start matches Some(s) ==> 0 <= s < i <= t.len(),
    ensures
        words_text(t, words_from(t, i, start)) == match start {
            Some(s) => t.subrange(s, i) + strip_from(t, i),
            None => strip_from(t, i),
        },
    decreases t.len() - i,
{
    if i >= t.len() {
        if let Some(s) = start {
            assert(seq![(s, t.len() as int)].drop_last() =~= Seq::<(int, int)>::empty());
            assert(Seq::<u8>::empty() + t.subrange(s, t.len() as int) =~= t.subrange(s, i) + strip_from(t, i));
            assert(words_from(t, i, start) == seq![(s, t.len() as int)]);
            lemma_words_text_single(t, (s, t.len() as int));
        } else {
            assert(words_from(t, i, start) == Seq::<(int, int)>::empty());
            assert(strip_from(t, i) == Seq::<u8>::empty());
        }
    } else if is_ws(t[i]) {
        lemma_words_from_text(t, i + 1, None);
        if let Some(s) = start {
            let rest = words_from(t, i + 1, None);
            lemma_words_text_concat(t, seq![(s, i)], rest);
            assert(seq![(s, i)].drop_last() =~= Seq::<(int, int)>::empty());
            assert(Seq::<u8>::empty() + t.subrange(s, i) =~= t.subrange(s, i));
            lemma_words_text_single(t, (s, i));
            assert(words_from(t, i, start) == seq![(s, i)] + rest);
        } else {
            assert(words_from(t, i, start) == words_from(t, i + 1, None));
        }
        assert(strip_from(t, i) == strip_from(t, i + 1));
    } else {
        assert(strip_from(t, i) == seq![t[i]] + strip_from(t, i + 1));
        match start {
            Some(s) => {
                lemma_words_from_text(t, i + 1, Some(s));
                assert(words_from(t, i, start) == words_from(t, i + 1, Some(s)));
                assert(t.subrange(s, i + 1) + strip_from(t, i + 1) =~= t.subrange(s, i) + (seq![t[i]] + strip_from(t, i + 1)));
            },
            None => {
                lemma_words_from_text(t, i + 1, Some(i));
                assert(words_from(t, i, start) == words_from(t, i + 1, Some(i)));
                assert(t.subrange(i, i + 1) =~= seq![t[i]]);
            },
        }
    }
}

/// A token without its place: its class and its text.
pub open spec fn shape(ts: Seq<TokenV>) -> Seq<(TokenKind, Seq<u8>)> {
    ts.map_values(|t: TokenV| (t.kind, t.text))
}

/// Productions without the places of their tokens.
pub open spec fn shapes(ps: Seq<Seq<TokenV>>) -> Seq<Seq<(TokenKind, Seq<u8>)>> {
    ps.map_values(|p: Seq<TokenV>| shape(p))
}

/// Two builder states that agree on all but the places of tokens.
pub open spec fn same_build_state(a: BuildState, b: BuildState) -> bool {
    &&& a.mode == b.mode
    &&& a.scopes.len() == b.scopes.len()
    &&& shape(a.cur) == shape(b.cur)
}

/// Two prefix results of the builder that agree on all but places.
pub open spec fn same_build_prefix(
    a: Result<(BuildState, Seq<Seq<TokenV>>), crate::token::ParseError>,
    b: Result<(BuildState, Seq<Seq<TokenV>>), crate::token::ParseError>,
) -> bool {
    match (a, b) {
        (Ok((sa, pa)), Ok((sb, pb))) => same_build_state(sa, sb) && shapes(pa) == shapes(pb),
        (Err(_), Err(_)) => true,
        _ => false,
    }
}

proof fn lemma_shape_push(s: Seq<TokenV>, x: TokenV)
    ensures
        shape(s.push(x)) == shape(s).push((x.kind, x.text)),
{
    assert(shape(s.push(x)) =~= shape(s).push((x.kind, x.text)));
}

proof fn lemma_build_prefix_same(a: Seq<TokenV>, b: Seq<TokenV>, n: nat)
    requires
        shape(a) == shape(b),
        n <= a.len(),
    ensures
        same_build_prefix(build_prefix(a, n), build_prefix(b, n)),
    decreases n,
{
    assert(a.len() == shape(a).len() == shape(b).len() == b.len());
    if n > 0 {
        lemma_build_prefix_same(a, b, (n - 1) as nat);
        if let (Ok((sa, pa)), Ok((sb, pb))) = (build_prefix(a, (n - 1) as nat), build_prefix(b, (n - 1) as nat)) {
            let x = a[n - 1];
            let y = b[n - 1];
            assert(shape(a)[n - 1] == (x.kind, x.text));
            assert(shape(b)[n - 1] == (y.kind, y.text));
            assert forall|k: TokenKind| #![auto]
                shape(sa.cur.push(TokenV { kind: k, text: x.text, span: x.span }))
                == shape(sb.cur.push(TokenV { kind: k, text: y.text, span: y.span })) by {
                lemma_shape_push(sa.cur, TokenV { kind: k, text: x.text, span: x.span });
                lemma_shape_push(sb.cur, TokenV { kind: k, text: y.text, span: y.span });
            }
            assert forall|k: TokenKind| #![auto]
                shape(seq![TokenV { kind: k, text: x.text, span: x.span }])
                == shape(seq![TokenV { kind: k, text: y.text, span: y.span }]) by {
                assert(shape(seq![TokenV { kind: k, text: x.text, span: x.span }]) =~= seq![(k, x.text)]);
                assert(shape(seq![TokenV { kind: k, text: y.text, span: y.span }]) =~= seq![(k, y.text)]);
            }
            lemma_shape_push(sa.cur, x);
            lemma_shape_push(sb.cur, y);
            assert(shape(seq![x]) =~= seq![(x.kind, x.text)]);
            assert(shape(seq![y]) =~= seq![(y.kind, y.text)]);
            assert forall|p: Seq<TokenV>, q: Seq<TokenV>| shape(p) == shape(q) implies
                #[trigger] shapes(pa.push(p)) == #[trigger] shapes(pb.push(q)) by {
                assert(shapes(pa.push(p)) =~= shapes(pa).push(shape(p)));
                assert(shapes(pb.push(q)) =~= shapes(pb).push(shape(q)));
            }
            assert(shape(Seq::<TokenV>::empty()) =~= Seq::<(TokenKind, Seq<u8>)>::empty());
            assert(shape(Seq::<TokenV>::empty()) == shape(Seq::<TokenV>::empty()));
        }
    }
}

/// The productions depend on the classes and texts of the tokens only, not
/// on where the tokens stand: two streams that agree on those either both
/// fail or give productions that agree on them too.
pub proof fn productions_ignore_places(a: Seq<TokenV>, b: Seq<TokenV>)
    requires
        shape(a) == shape(b),
    ensures
        build_spec(a) is Ok <==> build_spec(b) is Ok,
        build_spec(a) is Ok ==> shapes(build_spec(a)->Ok_0) == shapes(build_spec(b)->Ok_0),
{
    assert(a.len() == shape(a).len() == shape(b).len() == b.len());
    lemma_build_prefix_same(a, b, a.len());
}

/// The texts of the ranges `ws` of `t`.
pub open spec fn word_texts(t: Seq<u8>, ws: Seq<(int, int)>) -> Seq<Seq<u8>> {
    ws.map_values(|w: (int, int)| t.subrange(w.0, w.1))
}

proof fn lemma_lex_prefix_same(t: Seq<u8>, u: Seq<u8>, file: usize, n: nat)
    requires
        word_texts(t, words(t)) == word_texts(u, words(u)),
        n <= words(t).len(),
    ensures
        match (lex_prefix(t, words(t), file, n), lex_prefix(u, words(u), file, n)) {
            (Ok((sa, ta)), Ok((sb, tb))) => sa.mode == sb.mode && sa.resume == sb.resume && shape(ta) == shape(tb),
            (Err(_), Err(_)) => true,
            _ => false,
        },
    decreases n,
{
    let wt = words(t);
    let wu = words(u);
    assert(wt.len() == word_texts(t, wt).len() == word_texts(u, wu).len() == wu.len());
    if n > 0 {
        lemma_lex_prefix_same(t, u, file, (n - 1) as nat);
        if let (Ok((sa, ta)), Ok((sb, tb))) = (lex_prefix(t, wt, file, (n - 1) as nat), lex_prefix(u, wu, file, (n - 1) as nat)) {
            assert(word_texts(t, wt)[n - 1] == t.subrange(wt[n - 1].0, wt[n - 1].1));
            assert(word_texts(u, wu)[n - 1] == u.subrange(wu[n - 1].0, wu[n - 1].1));
            if let (Ok((sa2, x)), Ok((sb2, y))) = (lex_step(sa, t, wt[n - 1], file), lex_step(sb, u, wu[n - 1], file)) {
                lemma_shape_push(ta, x);
                lemma_shape_push(tb, y);
            }
        }
    }
}

/// The tokens of a file depend on the texts of its words only, not on the
/// whitespace between them: two files whose words agree either both fail
/// or give tokens that agree on class and text.
pub proof fn tokens_ignore_places(t: Seq<u8>, u: Seq<u8>, file: usize)
    requires
        word_texts(t, words(t)) == word_texts(u, words(u)),
    ensures
        lex_spec(t, file) is Ok <==> lex_spec(u, file) is Ok,
        lex_spec(t, file) is Ok ==> shape(lex_spec(t, file)->Ok_0) == shape(lex_spec(u, file)->Ok_0),
{
    assert(words(t).len() == word_texts(t, words(t)).len() == word_texts(u, words(u)).len() == words(u).len());
    lemma_lex_prefix_same(t, u, file, words(t).len());
    if let (Ok((sa, ta)), Ok((sb, tb))) = (lex_prefix(t, words(t), file, words(t).len()), lex_prefix(u, words(u), file, words(u).len())) {
        lemma_shape_push(ta, eof_token(file, t.len() as int));
        lemma_shape_push(tb, eof_token(file, u.len() as int));
    }
}

/// The texts of the tokens `ts` other than `Eof`, in order.
pub open spec fn text_list(ts: Seq<TokenV>) -> Seq<Seq<u8>>
    decreases ts.len(),
{
    if ts.len() == 0 {
        seq![]
    } else {
        text_list(ts.drop_last()) + if ts.last().kind == TokenKind::Eof { seq![] } else { seq![ts.last().text] }
    }
}

/// The texts of all tokens of the productions `ps`, in order.
pub open spec fn productions_text_list(ps: Seq<Seq<TokenV>>) -> Seq<Seq<u8>>
    decreases ps.len(),
{
    if ps.len() == 0 {
        seq![]
    } else {
        productions_text_list(ps.drop_last()) + text_list(ps.last())
    }
}

/// The texts `xs` joined by single spaces.
pub open spec fn join_words(xs: Seq<Seq<u8>>) -> Seq<u8>
    decreases xs.len(),
{
    if xs.len() == 0 {
        seq![]
    } else if xs.len() == 1 {
        xs[0]
    } else {
        xs[0] + seq![32u8] + join_words(xs.drop_first())
    }
}

/// Each of `xs` is a non-empty text without whitespace.
pub open spec fn all_words(xs: Seq<Seq<u8>>) -> bool {
    &&& forall|k: int| 0 <= k < xs.len() ==> (#[trigger] xs[k]).len() > 0
    &&& forall|k: int, m: int| 0 <= k < xs.len() && 0 <= m < xs[k].len() ==> !is_ws(#[trigger] xs[k][m])
}

proof fn lemma_build_prefix_list(ts: Seq<TokenV>, n: nat)
    requires
        n <= ts.len(),
        build_prefix(ts, n) is Ok,
    ensures
        ({
            let (st, ps) = build_prefix(ts, n)->Ok_0;
            &&& productions_text_list(ps) + text_list(st.cur) == text_list(ts.take(n as int))
            &&& st.mode == BuildMode::Idle ==> st.cur.len() == 0
        }),
    decreases n,
{
    if n == 0 {
        assert(ts.take(0) =~= seq![]);
        assert(Seq::<Seq<u8>>::empty() + Seq::<Seq<u8>>::empty() =~= Seq::<Seq<u8>>::empty());
    } else {
        lemma_build_prefix_list(ts, (n - 1) as nat);
        let (st, ps) = build_prefix(ts, (n - 1) as nat)->Ok_0;
        let pre = ts.take(n as int);
        assert(pre.drop_last() =~= ts.take(n - 1));
        let t = ts[n - 1];
        let (st2, ps2) = build_prefix(ts, n)->Ok_0;
        let tl = if t.kind == TokenKind::Eof { Seq::<Seq<u8>>::empty() } else { seq![t.text] };
        assert forall|x: TokenV| #[trigger] text_list(st.cur.push(x)) == text_list(st.cur)
            + if x.kind == TokenKind::Eof { Seq::<Seq<u8>>::empty() } else { seq![x.text] } by {
            assert(st.cur.push(x).drop_last() =~= st.cur);
        }
        assert forall|x: TokenV| #[trigger] text_list(seq![x])
            == if x.kind == TokenKind::Eof { Seq::<Seq<u8>>::empty() } else { seq![x.text] } by {
            let e = seq![x].drop_last();
            assert(e =~= Seq::<TokenV>::empty());
            assert(text_list(e) == Seq::<Seq<u8>>::empty());
            assert(Seq::<Seq<u8>>::empty() + seq![x.text] =~= seq![x.text]);
            assert(Seq::<Seq<u8>>::empty() + Seq::<Seq<u8>>::empty() =~= Seq::<Seq<u8>>::empty());
        }
        assert forall|p: Seq<TokenV>| #[trigger] productions_text_list(ps.push(p)) == productions_text_list(ps) + text_list(p) by {
            assert(ps.push(p).drop_last() =~= ps);
        }
        let pt = productions_text_list(ps);
        let ct = text_list(st.cur);
        assert(text_list(pre) == text_list(ts.take(n - 1)) + tl);
        assert(pt + ct + tl =~= pt + (ct + tl));
        if st.mode == BuildMode::Idle {
            assert(st.cur =~= Seq::<TokenV>::empty());
            assert(ct =~= Seq::<Seq<u8>>::empty());
            assert(pt + ct =~= pt);
            assert(pt + tl =~= pt + (Seq::<Seq<u8>>::empty() + tl));
        }
        if st2.mode == BuildMode::Idle {
            assert(st2.cur =~= Seq::<TokenV>::empty());
            assert(productions_text_list(ps2) + text_list(st2.cur) =~= productions_text_list(ps2));
        }
        if t.kind == TokenKind::Eof {
            assert(pt + ct + tl =~= pt + ct);
        }
        if ps2.len() > ps.len() {
            assert(ps2.drop_last() =~= ps);
        }
    }
}

proof fn lemma_lex_text_list(t: Seq<u8>, ws: Seq<(int, int)>, file: usize, n: nat)
    requires
        n <= ws.len(),
        lex_prefix(t, ws, file, n) is Ok,
    ensures
        text_list(lex_prefix(t, ws, file, n)->Ok_0.1) == word_texts(t, ws.take(n as int)),
    decreases n,
{
    if n == 0 {
        assert(word_texts(t, ws.take(0)) =~= seq![]);
    } else {
        lemma_lex_text_list(t, ws, file, (n - 1) as nat);
        let ts = lex_prefix(t, ws, file, (n - 1) as nat)->Ok_0.1;
        let ts2 = lex_prefix(t, ws, file, n)->Ok_0.1;
        assert(ts2.drop_last() =~= ts);
        let w = ws[n - 1];
        assert(ts2.last().kind != TokenKind::Eof);
        assert(word_texts(t, ws.take(n as int)) =~= word_texts(t, ws.take(n - 1)).push(t.subrange(w.0, w.1)));
    }
}

/// Inside a word, the scan runs on to the word's end.
proof fn lemma_words_from_run(t: Seq<u8>, i: int, e: int, k: int)
    requires
        0 <= i < k <= e <= t.len(),
        forall|m: int| i <= m < e ==> !is_ws(#[trigger] t[m]),
        e == t.len() || is_ws(t[e]),
    ensures
        words_from(t, k, Some(i)) == seq![(i, e)] + words_from(t, e + 1, None),
    decreases e - k,
{
    if k == e {
        if e >= t.len() {
            assert(words_from(t, e + 1, None) == Seq::<(int, int)>::empty());
            assert(seq![(i, e)] + Seq::<(int, int)>::empty() =~= seq![(i, e)]);
        }
    } else {
        lemma_words_from_run(t, i, e, k + 1);
    }
}

/// The words of a text that ends in `xs` joined by spaces, from where that
/// part starts, are the texts `xs`.
proof fn lemma_join_words_from(t: Seq<u8>, i: int, xs: Seq<Seq<u8>>)
    requires
        0 <= i <= t.len(),
        t.subrange(i, t.len() as int) == join_words(xs),
        all_words(xs),
    ensures
        word_texts(t, words_from(t, i, None)) == xs,
    decreases xs.len(),
{
    if xs.len() == 0 {
        assert(t.subrange(i, t.len() as int).len() == 0);
        assert(words_from(t, i, None) == Seq::<(int, int)>::empty());
        assert(word_texts(t, Seq::<(int, int)>::empty()) =~= xs);
    } else {
        let x = xs[0];
        let e = i + x.len();
        let j = join_words(xs);
        assert(x.len() > 0);
        assert(j.subrange(0, x.len() as int) =~= x);
        assert forall|m: int| i <= m < e implies !is_ws(#[trigger] t[m]) by {
            assert(t[m] == t.subrange(i, t.len() as int)[m - i]);
            assert(j[m - i] == x[m - i]);
            assert(!is_ws(xs[0][m - i]));
        }
        assert(e <= t.len());
        if xs.len() > 1 {
            assert(t[e] == t.subrange(i, t.len() as int)[e - i]);
            assert(j[e - i] == 32u8);
            assert(t.subrange(e + 1, t.len() as int) =~= join_words(xs.drop_first())) by {
                assert(t.subrange(e + 1, t.len() as int) =~= j.subrange(x.len() as int + 1, j.len() as int));
                assert(j.subrange(x.len() as int + 1, j.len() as int) =~= join_words(xs.drop_first()));
            }
            assert forall|k: int| 0 <= k < xs.drop_first().len() implies (#[trigger] xs.drop_first()[k]).len() > 0 by {
                assert(xs.drop_first()[k] == xs[k + 1]);
            }
            assert forall|k: int, m: int| 0 <= k < xs.drop_first().len() && 0 <= m < xs.drop_first()[k].len() implies
                !is_ws(#[trigger] xs.drop_first()[k][m]) by {
                assert(xs.drop_first()[k] == xs[k + 1]);
            }
            lemma_join_words_from(t, e + 1, xs.drop_first());
        } else {
            assert(e == t.len());
            assert(words_from(t, e + 1, None) == Seq::<(int, int)>::empty());
            assert(word_texts(t, Seq::<(int, int)>::empty()) =~= xs.drop_first());
        }
        lemma_words_from_run(t, i, e, i + 1);
        assert(words_from(t, i, None) == words_from(t, i + 1, Some(i)));
        let rest = words_from(t, e + 1, None);
        assert(t.subrange(i, e) =~= x);
        assert(word_texts(t, seq![(i, e)] + rest) =~= seq![x] + word_texts(t, rest));
        assert(seq![x] + xs.drop_first() =~= xs);
    }
}

proof fn lemma_words_are_words(t: Seq<u8>, i: int, start: Option<int>)
    requires
        0 <= i,
        start matches Some(s) ==> 0 <= s < i <= t.len() && forall|m: int| s <= m < i ==> !is_ws(#[trigger] t[m]),
    ensures
        all_words(word_texts(t, words_from(t, i, start))),
    decreases t.len() - i,
{
    let ws = words_from(t, i, start);
    crate::lexer::lemma_words_from_bounds(t, i, start);
    if i >= t.len() {
    } else if is_ws(t[i]) {
        lemma_words_are_words(t, i + 1, None);
    } else {
        let st2 = if start is None { Some(i) } else { start };
        lemma_words_are_words(t, i + 1, st2);
        assert(ws == words_from(t, i + 1, st2));
    }
    assert forall|k: int| 0 <= k < word_texts(t, ws).len() implies (#[trigger] word_texts(t, ws)[k]).len() > 0 by {
        assert(word_texts(t, ws)[k] == t.subrange(ws[k].0, ws[k].1));
    }
    assert forall|k: int, m: int| 0 <= k < word_texts(t, ws).len() && 0 <= m < word_texts(t, ws)[k].len() implies
        !is_ws(#[trigger] word_texts(t, ws)[k][m]) by {
        if i >= t.len() {
        } else if is_ws(t[i]) {
            if let Some(s) = start {
                let rest = words_from(t, i + 1, None);
                assert(ws == seq![(s, i)] + rest);
                if k > 0 {
                    assert(ws[k] == rest[k - 1]);
                    assert(word_texts(t, ws)[k] == word_texts(t, rest)[k - 1]);
                }
            }
        }
    }
}

/// Re-parsing a database held in one file: joining the texts of all tokens
/// of its productions with single spaces and parsing that text again gives
/// productions that agree with the first ones on every token's class and text.
pub proof fn reparse_is_idempotent(t: Seq<u8>, file: usize)
    requires
        lex_spec(t, file) is Ok,
        build_spec(lex_spec(t, file)->Ok_0) is Ok,
    ensures
        ({
            let ps = build_spec(lex_spec(t, file)->Ok_0)->Ok_0;
            let j = join_words(productions_text_list(ps));
            &&& lex_spec(j, file) is Ok
            &&& build_spec(lex_spec(j, file)->Ok_0) is Ok
            &&& shapes(build_spec(lex_spec(j, file)->Ok_0)->Ok_0) == shapes(ps)
        }),
{
    let ts = lex_spec(t, file)->Ok_0;
    let ps = build_spec(ts)->Ok_0;
    let xs = productions_text_list(ps);
    let j = join_words(xs);
    lemma_build_prefix_list(ts, ts.len());
    assert(ts.take(ts.len() as int) =~= ts);
    let ws = words(t);
    lemma_lex_text_list(t, ws, file, ws.len());
    assert(ws.take(ws.len() as int) =~= ws);
    let lexed = lex_prefix(t, ws, file, ws.len())->Ok_0.1;
    assert(ts.drop_last() =~= lexed);
    assert(text_list(ts) =~= text_list(lexed));
    assert(xs + Seq::<Seq<u8>>::empty() =~= xs);
    assert(xs == word_texts(t, ws));
    lemma_words_are_words(t, 0, None);
    assert(j.subrange(0, j.len() as int) =~= j);
    lemma_join_words_from(j, 0, xs);
    tokens_ignore_places(t, j, file);
    productions_ignore_places(ts, lex_spec(j, file)->Ok_0);
}

} // verus!
