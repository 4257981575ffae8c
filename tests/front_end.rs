use mmparse::builder::{build_productions, ProductionBuilder, SyntaxProduction};
use mmparse::lexer::{split_words, tokenize, Lexer, LexerLocation};
use mmparse::path::normalize;
use mmparse::position::{position_of, Location};
use mmparse::resolver::{bytes_equal, find_file, included_path, parse_database, resolve, resolve_path, SourceText};
use mmparse::token::{keyword_from_suffix, Keyword, ParseError, Span, Token, TokenKind};

fn table(files: &[(&str, &str)]) -> Vec<SourceText> {
    files
        .iter()
        .map(|(p, c)| SourceText { path: p.as_bytes().to_vec(), content: c.as_bytes().to_vec() })
        .collect()
}

fn texts(ts: &[Token]) -> Vec<String> {
    ts.iter().map(|t| String::from_utf8(t.text.clone()).unwrap()).collect()
}

fn kinds(ts: &[Token]) -> Vec<TokenKind> {
    ts.iter().map(|t| t.kind).collect()
}

fn production_texts(ps: &[SyntaxProduction]) -> Vec<Vec<String>> {
    ps.iter().map(|p| texts(&p.tokens)).collect()
}

#[test]
fn split_words_finds_maximal_runs() {
    assert_eq!(split_words(b"  ab\tc\n\nde "), vec![(2, 4), (5, 6), (8, 10)]);
    assert_eq!(split_words(b""), vec![]);
    assert_eq!(split_words(b" \r\n\x0c\t"), vec![]);
    assert_eq!(split_words(b"x"), vec![(0, 1)]);
}

#[test]
fn keywords_are_recognised() {
    assert_eq!(keyword_from_suffix(b'c'), Some(Keyword::ConstantDeclarationStart));
    assert_eq!(keyword_from_suffix(b'.'), Some(Keyword::End));
    assert_eq!(keyword_from_suffix(b'f'), None);
    assert_eq!(Keyword::ProofDetailsStart.spelling(), b"$=".to_vec());
}

#[test]
fn tokenize_classifies_words_by_region() {
    let ts = tokenize(b"$c ( wff $.\n$( a $[ b $)\nth $p wff $= ( ax ) ABC $.", 3).unwrap();
    assert_eq!(
        texts(&ts),
        vec!["$c", "(", "wff", "$.", "$(", "a", "$[", "b", "$)", "th", "$p", "wff", "$=", "(", "ax", ")", "ABC", "$.", ""]
    );
    assert_eq!(
        kinds(&ts),
        vec![
            TokenKind::Keyword(Keyword::ConstantDeclarationStart),
            TokenKind::CompressedProofStart,
            TokenKind::Word,
            TokenKind::Keyword(Keyword::End),
            TokenKind::Keyword(Keyword::CommentStart),
            TokenKind::CommentedLiteral,
            TokenKind::CommentedLiteral,
            TokenKind::CommentedLiteral,
            TokenKind::Keyword(Keyword::CommentEnd),
            TokenKind::Word,
            TokenKind::Keyword(Keyword::ProvableAssertionStart),
            TokenKind::Word,
            TokenKind::Keyword(Keyword::ProofDetailsStart),
            TokenKind::CompressedProofStart,
            TokenKind::Word,
            TokenKind::CompressedProofEnd,
            TokenKind::CompressedProofPart,
            TokenKind::Keyword(Keyword::End),
            TokenKind::Eof,
        ]
    );
    assert_eq!(ts[1].span, Span { file: 3, start: 3, end: 4 });
    let eof = &ts[ts.len() - 1];
    assert_eq!(eof.span, Span { file: 3, start: 51, end: 51 });
}

#[test]
fn empty_file_is_one_eof() {
    let ts = tokenize(b"", 0).unwrap();
    assert_eq!(kinds(&ts), vec![TokenKind::Eof]);
    assert_eq!(ts[0].span, Span { file: 0, start: 0, end: 0 });
}

#[test]
fn unknown_keyword_is_refused() {
    assert_eq!(tokenize(b"x $f y $.", 0).unwrap_err(), ParseError::UnknownKeyword(Span { file: 0, start: 2, end: 4 }));
    assert_eq!(tokenize(b"$", 0).unwrap_err(), ParseError::UnknownKeyword(Span { file: 0, start: 0, end: 1 }));
    assert_eq!(tokenize(b"$cc", 0).unwrap_err(), ParseError::UnknownKeyword(Span { file: 0, start: 0, end: 3 }));
}

#[test]
fn unterminated_comment_reports_its_start() {
    let err = tokenize(b"$c a $.\n  $( comment text", 1).unwrap_err();
    assert_eq!(err, ParseError::UnterminatedRegion(Span { file: 1, start: 10, end: 12 }));
}

#[test]
fn unterminated_label_list_reports_its_start() {
    let err = tokenize(b"t $p x $= ( a b", 0).unwrap_err();
    assert_eq!(err, ParseError::UnterminatedRegion(Span { file: 0, start: 10, end: 11 }));
    let err = tokenize(b"t $p x $= ( a $.", 0).unwrap_err();
    assert_eq!(err, ParseError::UnterminatedRegion(Span { file: 0, start: 10, end: 11 }));
}

#[test]
fn lowercase_in_compressed_proof_is_refused() {
    let err = tokenize(b"t $p x $= ( a ) ABcD $.", 0).unwrap_err();
    assert_eq!(err, ParseError::InvalidCompressedProof(Span { file: 0, start: 18, end: 19 }));
}

#[test]
fn productions_group_statements() {
    let src = "$( intro $)\n$c ( ) wff $.\n${\n ax1 $a wff ( ph ) $.\n th1 $p wff ph $= ax1 ax1 $.\n$}\n";
    let ts = tokenize(src.as_bytes(), 0).unwrap();
    let ps = build_productions(&ts).unwrap();
    assert_eq!(
        production_texts(&ps),
        vec![
            vec!["$(", "intro", "$)"],
            vec!["$c", "(", ")", "wff", "$."],
            vec!["${"],
            vec!["ax1", "$a", "wff", "(", "ph", ")", "$."],
            vec!["th1", "$p", "wff", "ph", "$=", "ax1", "ax1", "$."],
            vec!["$}"],
        ]
    );
    assert_eq!(
        kinds(&ps[3].tokens),
        vec![
            TokenKind::Label,
            TokenKind::Keyword(Keyword::AxiomaticAssertionStart),
            TokenKind::MathSymbol,
            TokenKind::CompressedProofStart,
            TokenKind::MathSymbol,
            TokenKind::CompressedProofEnd,
            TokenKind::Keyword(Keyword::End),
        ]
    );
    assert_eq!(kinds(&ps[4].tokens)[5], TokenKind::Label);
}

#[test]
fn production_count_matches_statements_comments_and_scopes() {
    let src = "$( a $) $( b $) ${ $c x $. $v y $. $d x y $. l $a x y $. $} ${ $}";
    let ts = tokenize(src.as_bytes(), 0).unwrap();
    let ps = build_productions(&ts).unwrap();
    let stmts = 4;
    let comments = 2;
    let scope_markers = 4;
    assert_eq!(ps.len(), stmts + comments + scope_markers);
    let joined: String = ps.iter().flat_map(|p| texts(&p.tokens)).collect::<Vec<_>>().concat();
    let stripped: String = src.chars().filter(|c| !c.is_ascii_whitespace()).collect();
    assert_eq!(joined, stripped);
}

#[test]
fn reparse_of_joined_tokens_gives_same_productions() {
    let src = "$( c $)\n$c |- wff $.\n${ ax $a |- wff $.\n pr $p |- wff $= ( ax ) AB $. $}";
    let ps = build_productions(&tokenize(src.as_bytes(), 0).unwrap()).unwrap();
    let joined = ps.iter().flat_map(|p| texts(&p.tokens)).collect::<Vec<_>>().join(" ");
    let ps2 = build_productions(&tokenize(joined.as_bytes(), 0).unwrap()).unwrap();
    assert_eq!(production_texts(&ps), production_texts(&ps2));
    let k1: Vec<Vec<TokenKind>> = ps.iter().map(|p| kinds(&p.tokens)).collect();
    let k2: Vec<Vec<TokenKind>> = ps2.iter().map(|p| kinds(&p.tokens)).collect();
    assert_eq!(k1, k2);
}

#[test]
fn unterminated_statement_and_scope() {
    let ts = tokenize(b"$c a b", 0).unwrap();
    assert_eq!(build_productions(&ts).unwrap_err(), ParseError::UnterminatedRegion(Span { file: 0, start: 0, end: 2 }));
    let ts = tokenize(b"${ ${ $}", 0).unwrap();
    assert_eq!(build_productions(&ts).unwrap_err(), ParseError::UnterminatedRegion(Span { file: 0, start: 0, end: 2 }));
}

#[test]
fn unexpected_tokens_are_refused() {
    let ts = tokenize(b"$}", 0).unwrap();
    assert_eq!(build_productions(&ts).unwrap_err(), ParseError::UnexpectedToken(Span { file: 0, start: 0, end: 2 }));
    let ts = tokenize(b"lbl $c x $.", 0).unwrap();
    assert_eq!(build_productions(&ts).unwrap_err(), ParseError::UnexpectedToken(Span { file: 0, start: 4, end: 6 }));
    let ts = tokenize(b"t $p x $.", 0).unwrap();
    assert_eq!(build_productions(&ts).unwrap_err(), ParseError::UnexpectedToken(Span { file: 0, start: 7, end: 9 }));
}

#[test]
fn builder_hands_out_productions_incrementally() {
    let ts = tokenize(b"${ $c a $.", 0).unwrap();
    let mut b = ProductionBuilder::new();
    let mut got = Vec::new();
    for t in ts.iter() {
        got.push(b.push_token(t.duplicate()).unwrap().is_some());
    }
    assert_eq!(got, vec![true, false, false, true, false]);
    assert_eq!(b.finish(), Some(ParseError::UnterminatedRegion(Span { file: 0, start: 0, end: 2 })));
}

#[test]
fn resolve_path_uses_including_directory() {
    assert_eq!(resolve_path(b"db/main.mm", b"sub.mm"), b"db/sub.mm".to_vec());
    assert_eq!(resolve_path(b"main.mm", b"sub.mm"), b"sub.mm".to_vec());
    assert_eq!(resolve_path(b"a/b/main.mm", b"/abs/x.mm"), b"/abs/x.mm".to_vec());
    assert!(bytes_equal(b"ab", b"ab"));
    assert!(!bytes_equal(b"ab", b"abc"));
}

#[test]
fn self_inclusion_is_cyclic() {
    let files = table(&[("self.mm", "$c a $.\n$[ self.mm $]\n")]);
    let err = resolve(&files, 0).unwrap_err();
    match err {
        ParseError::CyclicInclusion { file, at } => {
            assert_eq!(files[file].path, b"self.mm".to_vec());
            assert_eq!(at, Span { file: 0, start: 11, end: 18 });
        }
        other => panic!("unexpected {:?}", other),
    }
}

#[test]
fn indirect_cycle_is_refused() {
    let files = table(&[("d/a.mm", "$[ b.mm $]"), ("d/b.mm", "$[ a.mm $]")]);
    assert!(matches!(resolve(&files, 0), Err(ParseError::CyclicInclusion { file: 0, .. })));
}

#[test]
fn sequential_reinclusion_is_depth_first() {
    let files = table(&[
        ("main.mm", "$[ A.mm $] $[ B.mm $]"),
        ("A.mm", "$c a $."),
        ("B.mm", "$c b1 $. $[ A.mm $] $c b2 $."),
    ]);
    let ts = resolve(&files, 0).unwrap();
    assert_eq!(
        texts(&ts),
        vec!["$c", "a", "$.", "", "$c", "b1", "$.", "$c", "a", "$.", "", "$c", "b2", "$.", "", ""]
    );
    let eof_files: Vec<usize> = ts.iter().filter(|t| t.kind == TokenKind::Eof).map(|t| t.span.file).collect();
    assert_eq!(eof_files, vec![1, 1, 2, 0]);
    let ps = parse_database(&files, 0).unwrap();
    assert_eq!(ps.len(), 4);
}

#[test]
fn malformed_inclusion_is_refused() {
    let files = table(&[("main.mm", "$[ onlyonefile.mm $["), ("onlyonefile.mm", "")]);
    assert_eq!(resolve(&files, 0).unwrap_err(), ParseError::MalformedInclusion(Span { file: 0, start: 0, end: 2 }));
    let files = table(&[("main.mm", "$[ a.mm b.mm $]")]);
    assert_eq!(resolve(&files, 0).unwrap_err(), ParseError::MalformedInclusion(Span { file: 0, start: 0, end: 2 }));
    let files = table(&[("main.mm", "$c x $. $[ a.mm")]);
    assert_eq!(resolve(&files, 0).unwrap_err(), ParseError::MalformedInclusion(Span { file: 0, start: 8, end: 10 }));
}

#[test]
fn missing_file_is_reported_with_its_path() {
    let files = table(&[("dir/main.mm", "$[ other.mm $]")]);
    let err = resolve(&files, 0).unwrap_err();
    assert_eq!(err, ParseError::FileNotLoaded(Span { file: 0, start: 3, end: 11 }));
    if let ParseError::FileNotLoaded(at) = err {
        assert_eq!(included_path(&files, at), Some(b"dir/other.mm".to_vec()));
    }
    assert_eq!(find_file(&files, b"dir/main.mm"), Some(0));
    assert_eq!(find_file(&files, b"main.mm"), None);
}

#[test]
fn positions_count_lines_and_columns() {
    let text = b"ab\ncd\n\nefg";
    let p = position_of(text, 2, 8);
    assert_eq!((p.file, p.zi_line, p.zi_column), (2, 3, 1));
    assert_eq!(p.line_number(), 4);
    let p = position_of(text, 0, 0);
    assert_eq!((p.zi_line, p.zi_column), (0, 0));
    let p = position_of(text, 0, 3);
    assert_eq!((p.zi_line, p.zi_column), (1, 0));
}

#[test]
fn location_and_lexer_location_hold_their_fields() {
    let l = Location::new(1, 2, 3);
    assert_eq!((l.file, l.zi_line, l.zi_column), (1, 2, 3));
    let l = LexerLocation::new(4, 5, 6);
    assert_eq!(l, LexerLocation { file: 4, zi_line: 5, zi_column: 6 });
}

#[test]
fn lexer_reads_bytes_and_tracks_lines() {
    assert!(Lexer::try_new(table(&[("a.mm", "x")]), 1).is_none());
    let mut lx = Lexer::try_new(table(&[("a.mm", "$c\nx")]), 0).unwrap();
    assert_eq!(lx.progress, vec![LexerLocation::new(0, 0, 0)]);
    let mut got = Vec::new();
    while let Some(b) = lx.next_char() {
        got.push(b);
    }
    assert_eq!(got, b"$c\nx".to_vec());
    assert_eq!(lx.progress, vec![LexerLocation::new(0, 1, 1)]);
    assert_eq!(lx.offsets, vec![4]);
    assert_eq!(lx.next_char(), None);
}

#[test]
fn directive_inside_comment_is_not_resolved() {
    let files = table(&[("main.mm", "$( $[ nowhere.mm $] $) $c x $.")]);
    let ps = parse_database(&files, 0).unwrap();
    assert_eq!(production_texts(&ps), vec![vec!["$(", "$[", "nowhere.mm", "$]", "$)"], vec!["$c", "x", "$."]]);
}

#[test]
fn included_path_outside_table_is_none() {
    let files = table(&[("main.mm", "abc")]);
    assert_eq!(included_path(&files, Span { file: 1, start: 0, end: 1 }), None);
    assert_eq!(included_path(&files, Span { file: 0, start: 2, end: 9 }), None);
}

#[test]
fn statement_split_across_files_is_unterminated() {
    let files = table(&[("main.mm", "$c x $[ a.mm $] $."), ("a.mm", "y")]);
    let err = parse_database(&files, 0).unwrap_err();
    assert_eq!(err, ParseError::UnterminatedRegion(Span { file: 0, start: 0, end: 2 }));
}

#[test]
fn parentheses_outside_comments_are_proof_markers() {
    let ts = tokenize(b"$c ( ) $. $( ( $)", 0).unwrap();
    assert_eq!(
        kinds(&ts),
        vec![
            TokenKind::Keyword(Keyword::ConstantDeclarationStart),
            TokenKind::CompressedProofStart,
            TokenKind::CompressedProofEnd,
            TokenKind::Keyword(Keyword::End),
            TokenKind::Keyword(Keyword::CommentStart),
            TokenKind::CommentedLiteral,
            TokenKind::Keyword(Keyword::CommentEnd),
            TokenKind::Eof,
        ]
    );
    let ps = build_productions(&ts).unwrap();
    assert_eq!(production_texts(&ps), vec![vec!["$c", "(", ")", "$."], vec!["$(", "(", "$)"]]);
}

#[test]
fn keywords_inside_label_list_are_keywords() {
    let ts = tokenize(b"t $p x $= ( a $. ) AB $.", 0).unwrap();
    assert_eq!(ts[6].kind, TokenKind::Keyword(Keyword::End));
    assert_eq!(ts[7].kind, TokenKind::CompressedProofEnd);
    assert_eq!(ts[8].kind, TokenKind::CompressedProofPart);
}

#[test]
fn comment_inside_label_list_resumes_it() {
    let ts = tokenize(b"t $p x $= ( a $( note $) b ) AB $.", 0).unwrap();
    assert_eq!(ts[9].kind, TokenKind::Word);
    assert_eq!(ts[10].kind, TokenKind::CompressedProofEnd);
    assert_eq!(ts[11].kind, TokenKind::CompressedProofPart);
}

#[test]
fn normalize_folds_dots() {
    assert_eq!(normalize(b"./a/./b//c.mm"), b"a/b/c.mm".to_vec());
    assert_eq!(normalize(b"a/b/../c.mm"), b"a/c.mm".to_vec());
    assert_eq!(normalize(b"../x/../../y.mm"), b"../../y.mm".to_vec());
    assert_eq!(normalize(b"/../a/.."), b"/".to_vec());
    assert_eq!(normalize(b""), b"".to_vec());
    assert_eq!(resolve_path(b"db/sub/main.mm", b"../other.mm"), b"db/other.mm".to_vec());
    assert_eq!(resolve_path(b"main.mm", b"./x.mm"), b"x.mm".to_vec());
}

#[test]
fn aliased_self_inclusion_is_cyclic() {
    let files = table(&[("self.mm", "$[ ./self.mm $]")]);
    assert!(matches!(resolve(&files, 0), Err(ParseError::CyclicInclusion { file: 0, .. })));
    let files = table(&[("d/a.mm", "$[ ../d/./a.mm $]")]);
    assert!(matches!(resolve(&files, 0), Err(ParseError::CyclicInclusion { file: 0, .. })));
}

#[test]
fn reparse_of_included_text_can_reclassify() {
    let files = table(&[("main.mm", "t $p x $= ( a $[ f.mm $] $c ) $."), ("f.mm", "b ) AB $.")]);
    let ps = parse_database(&files, 0).unwrap();
    assert_eq!(kinds(&ps[0].tokens)[8], TokenKind::Label);
    let joined = ps.iter().flat_map(|p| texts(&p.tokens)).collect::<Vec<_>>().join(" ");
    let ps2 = build_productions(&tokenize(joined.as_bytes(), 0).unwrap()).unwrap();
    assert_eq!(production_texts(&ps), production_texts(&ps2));
    assert_eq!(kinds(&ps2[0].tokens)[8], TokenKind::CompressedProofPart);
}
