use mbe::bridge::{
    parse_exprs_with_sep, parse_to_token_tree, syntax_node_to_token_tree,
    syntax_node_to_token_tree_with_modifications, LexedStr, LexedToken,
};
use mbe::convert::SyntaxKind;
use mbe::sink::{token_tree_to_syntax_node, BuildEvent, Step};
use mbe::token_map::{TokenMap, TokenTextRange};
use mbe::tt::{
    Delimiter, DelimiterKind, Ident, Leaf, Literal, Punct, Spacing, Subtree, SyntheticTokenId,
    TextRange, TokenId, TokenTree,
};
use mbe::walk::{cst_token_stream, CstToken, SyntaxNode, SyntheticToken, WalkEvent};

fn range(start: u32, end: u32) -> TextRange {
    TextRange { start, end }
}

/// Lexes the small texts of these tests: identifiers, keywords, numbers,
/// lifetimes, whitespace, comments and single-character puncts.
fn lex(text: &str) -> LexedStr {
    let chars: Vec<char> = text.chars().collect();
    let mut tokens = Vec::new();
    let mut i = 0;
    while i < chars.len() {
        let start = i;
        let c = chars[i];
        let kind = if c.is_whitespace() {
            while i < chars.len() && chars[i].is_whitespace() {
                i += 1;
            }
            SyntaxKind::Whitespace
        } else if c == '/' && i + 1 < chars.len() && chars[i + 1] == '/' {
            while i < chars.len() && chars[i] != '\n' {
                i += 1;
            }
            SyntaxKind::Comment
        } else if c == '\'' {
            i += 1;
            while i < chars.len() && (chars[i].is_alphanumeric() || chars[i] == '_') {
                i += 1;
            }
            SyntaxKind::LifetimeIdent
        } else if c.is_ascii_digit() {
            while i < chars.len() && chars[i].is_ascii_digit() {
                i += 1;
            }
            SyntaxKind::Literal
        } else if c.is_alphabetic() || c == '_' {
            while i < chars.len() && (chars[i].is_alphanumeric() || chars[i] == '_') {
                i += 1;
            }
            let word: String = chars[start..i].iter().collect();
            if word == "_" {
                SyntaxKind::Underscore
            } else if word == "fn" || word == "true" || word == "false" {
                SyntaxKind::Keyword
            } else {
                SyntaxKind::Ident
            }
        } else {
            i += 1;
            SyntaxKind::Punct
        };
        let t: String = chars[start..i].iter().collect();
        tokens.push(LexedToken { kind, text: t, range: range(start as u32, i as u32) });
    }
    LexedStr { tokens, errors: Vec::new() }
}

fn ident(t: &TokenTree) -> &str {
    match t {
        TokenTree::Leaf(Leaf::Ident(Ident { text, .. })) => text.as_str(),
        other => panic!("not an ident: {:?}", other),
    }
}

fn literal(t: &TokenTree) -> &str {
    match t {
        TokenTree::Leaf(Leaf::Literal(Literal { text, .. })) => text.as_str(),
        other => panic!("not a literal: {:?}", other),
    }
}

fn punct(t: &TokenTree) -> (char, Spacing) {
    match t {
        TokenTree::Leaf(Leaf::Punct(Punct { char, spacing, .. })) => (*char, *spacing),
        other => panic!("not a punct: {:?}", other),
    }
}

fn subtree(t: &TokenTree) -> &Subtree {
    match t {
        TokenTree::Subtree(s) => s,
        other => panic!("not a subtree: {:?}", other),
    }
}

fn tok(kind: SyntaxKind, text: &str, start: u32) -> WalkEvent {
    WalkEvent::Token(CstToken {
        kind,
        text: text.to_string(),
        range: range(start, start + text.len() as u32),
    })
}

#[test]
fn parse_ident_plus_ident() {
    let (tt, map) = parse_to_token_tree(&lex("a + b")).unwrap();
    assert!(tt.delimiter.is_none());
    assert_eq!(tt.token_trees.len(), 3);
    assert_eq!(ident(&tt.token_trees[0]), "a");
    assert_eq!(punct(&tt.token_trees[1]), ('+', Spacing::Alone));
    assert_eq!(ident(&tt.token_trees[2]), "b");
    assert_eq!(map.range_by_token(TokenId(0)), Some(range(0, 1)));
    assert_eq!(map.range_by_token(TokenId(1)), Some(range(2, 3)));
    assert_eq!(map.range_by_token(TokenId(2)), Some(range(4, 5)));
    assert_eq!(map.range_by_token(TokenId(3)), None);
}

#[test]
fn parse_path_separator_is_joint() {
    let (tt, _) = parse_to_token_tree(&lex("a :: b")).unwrap();
    assert_eq!(tt.token_trees.len(), 4);
    assert_eq!(ident(&tt.token_trees[0]), "a");
    assert_eq!(punct(&tt.token_trees[1]), (':', Spacing::Joint));
    assert_eq!(punct(&tt.token_trees[2]), (':', Spacing::Alone));
    assert_eq!(ident(&tt.token_trees[3]), "b");
}

#[test]
fn parse_lifetime_splits_apostrophe() {
    let (tt, map) = parse_to_token_tree(&lex("'a")).unwrap();
    assert_eq!(tt.token_trees.len(), 2);
    assert_eq!(punct(&tt.token_trees[0]), ('\'', Spacing::Joint));
    assert_eq!(ident(&tt.token_trees[1]), "a");
    assert_eq!(map.range_by_token(TokenId(0)), Some(range(0, 1)));
    assert_eq!(map.range_by_token(TokenId(1)), Some(range(1, 2)));
}

#[test]
fn parse_with_lexer_error_is_none() {
    let mut lexed = lex("a");
    lexed.errors.push("unterminated".to_string());
    assert!(parse_to_token_tree(&lexed).is_none());
}

#[test]
fn parse_empty_text() {
    let (tt, map) = parse_to_token_tree(&lex("")).unwrap();
    assert!(tt.delimiter.is_none());
    assert!(tt.token_trees.is_empty());
    assert!(map.entries.is_empty());
}

#[test]
fn punct_before_open_delimiter_is_alone() {
    let (tt, _) = parse_to_token_tree(&lex("#[x]")).unwrap();
    assert_eq!(punct(&tt.token_trees[0]), ('#', Spacing::Alone));
    let inner = subtree(&tt.token_trees[1]);
    assert_eq!(inner.delimiter.unwrap().kind, DelimiterKind::Bracket);
}

#[test]
fn underscore_is_an_ident() {
    let (tt, _) = parse_to_token_tree(&lex("=_")).unwrap();
    assert_eq!(punct(&tt.token_trees[0]), ('=', Spacing::Alone));
    assert_eq!(ident(&tt.token_trees[1]), "_");
}

#[test]
fn single_delimited_group_is_returned_itself() {
    let (tt, map) = parse_to_token_tree(&lex("(a)")).unwrap();
    let d = tt.delimiter.unwrap();
    assert_eq!(d.kind, DelimiterKind::Parenthesis);
    assert_eq!(tt.token_trees.len(), 1);
    assert_eq!(map.delim_by_token(d.id), Some((range(0, 1), range(2, 3))));
}

#[test]
fn unbalanced_delimiters_are_demoted() {
    let (tt, map) = parse_to_token_tree(&lex("{ ( ]")).unwrap();
    assert!(tt.delimiter.is_none());
    assert_eq!(tt.token_trees.len(), 3);
    assert_eq!(punct(&tt.token_trees[0]), ('{', Spacing::Alone));
    assert_eq!(punct(&tt.token_trees[1]), ('(', Spacing::Alone));
    assert_eq!(punct(&tt.token_trees[2]), (']', Spacing::Alone));
    assert!(map.entries.iter().all(|(_, r)| matches!(r, TokenTextRange::Token(_))));
}

#[test]
fn doc_comment_becomes_attribute() {
    let events = vec![
        WalkEvent::Enter(0),
        WalkEvent::Enter(1),
        tok(SyntaxKind::Comment, "/// hi", 0),
        tok(SyntaxKind::Whitespace, "\n", 6),
        tok(SyntaxKind::Keyword, "fn", 7),
        tok(SyntaxKind::Whitespace, " ", 9),
        tok(SyntaxKind::Ident, "f", 10),
        WalkEvent::Enter(2),
        tok(SyntaxKind::Punct, "(", 11),
        tok(SyntaxKind::Punct, ")", 12),
        WalkEvent::Leave(2),
        WalkEvent::Enter(3),
        tok(SyntaxKind::Punct, "{", 13),
        tok(SyntaxKind::Punct, "}", 14),
        WalkEvent::Leave(3),
        WalkEvent::Leave(1),
        WalkEvent::Leave(0),
    ];
    let node = SyntaxNode { range: range(0, 15), events };
    let (tt, map) = syntax_node_to_token_tree(&node);
    assert_eq!(tt.token_trees.len(), 6);
    assert_eq!(punct(&tt.token_trees[0]), ('#', Spacing::Alone));
    let meta = subtree(&tt.token_trees[1]);
    assert_eq!(meta.delimiter.unwrap().kind, DelimiterKind::Bracket);
    assert_eq!(ident(&meta.token_trees[0]), "doc");
    assert_eq!(punct(&meta.token_trees[1]), ('=', Spacing::Alone));
    assert_eq!(literal(&meta.token_trees[2]), "\" hi\"");
    match &meta.token_trees[2] {
        TokenTree::Leaf(Leaf::Literal(l)) => {
            assert_eq!(map.range_by_token(l.id), Some(range(0, 6)));
        }
        _ => unreachable!(),
    }
    assert_eq!(ident(&tt.token_trees[2]), "fn");
    assert_eq!(ident(&tt.token_trees[3]), "f");
    assert_eq!(subtree(&tt.token_trees[4]).delimiter.unwrap().kind, DelimiterKind::Parenthesis);
    assert_eq!(subtree(&tt.token_trees[5]).delimiter.unwrap().kind, DelimiterKind::Brace);
}

#[test]
fn inner_doc_comment_has_bang() {
    let (tt, _) = parse_to_token_tree(&lex("//! top")).unwrap();
    assert_eq!(tt.token_trees.len(), 3);
    assert_eq!(punct(&tt.token_trees[0]), ('#', Spacing::Alone));
    assert_eq!(punct(&tt.token_trees[1]), ('!', Spacing::Alone));
    let meta = subtree(&tt.token_trees[2]);
    assert_eq!(literal(&meta.token_trees[2]), "\" top\"");
}

#[test]
fn doc_comment_text_is_escaped() {
    let (tt, _) = parse_to_token_tree(&lex("/// a\"b")).unwrap();
    let meta = subtree(&tt.token_trees[1]);
    assert_eq!(literal(&meta.token_trees[2]), "\" a\\\"b\"");
}

#[test]
fn block_doc_comment_drops_closer() {
    let mut lexed = lex("");
    lexed.tokens.push(LexedToken {
        kind: SyntaxKind::Comment,
        text: "/** x */".to_string(),
        range: range(0, 8),
    });
    let (tt, _) = parse_to_token_tree(&lexed).unwrap();
    let meta = subtree(&tt.token_trees[1]);
    assert_eq!(literal(&meta.token_trees[2]), "\" x \"");
}

#[test]
fn plain_comments_are_dropped() {
    let (tt, map) = parse_to_token_tree(&lex("// note\n//// rule\na")).unwrap();
    assert_eq!(tt.token_trees.len(), 1);
    assert_eq!(ident(&tt.token_trees[0]), "a");
    assert_eq!(map.entries.len(), 1);
}

#[test]
fn cst_punct_is_split_per_character() {
    let events = vec![
        WalkEvent::Enter(0),
        tok(SyntaxKind::Ident, "a", 0),
        tok(SyntaxKind::Punct, "::", 1),
        tok(SyntaxKind::Ident, "b", 3),
        WalkEvent::Leave(0),
    ];
    let node = SyntaxNode { range: range(0, 4), events };
    let (tt, map) = syntax_node_to_token_tree(&node);
    assert_eq!(tt.token_trees.len(), 4);
    assert_eq!(punct(&tt.token_trees[1]), (':', Spacing::Joint));
    assert_eq!(punct(&tt.token_trees[2]), (':', Spacing::Alone));
    assert_eq!(map.range_by_token(TokenId(1)), Some(range(1, 2)));
    assert_eq!(map.range_by_token(TokenId(2)), Some(range(2, 3)));
}

#[test]
fn cst_ranges_are_relative_to_node() {
    let events = vec![
        WalkEvent::Enter(0),
        tok(SyntaxKind::Ident, "x", 10),
        tok(SyntaxKind::Whitespace, " ", 11),
        tok(SyntaxKind::Literal, "1", 12),
        WalkEvent::Leave(0),
    ];
    let node = SyntaxNode { range: range(10, 13), events };
    let (tt, map) = syntax_node_to_token_tree(&node);
    assert_eq!(literal(&tt.token_trees[1]), "1");
    assert_eq!(map.range_by_token(TokenId(0)), Some(range(0, 1)));
    assert_eq!(map.range_by_token(TokenId(1)), Some(range(2, 3)));
}

#[test]
fn replace_and_append_splice_synthetic_tokens() {
    let events = vec![
        WalkEvent::Enter(0),
        WalkEvent::Enter(1),
        tok(SyntaxKind::Ident, "x", 0),
        WalkEvent::Leave(1),
        tok(SyntaxKind::Punct, ";", 1),
        WalkEvent::Leave(0),
    ];
    let node = SyntaxNode { range: range(0, 2), events };
    let y = SyntheticToken {
        kind: SyntaxKind::Ident,
        text: "y".to_string(),
        range: range(0, 0),
        id: SyntheticTokenId(7),
    };
    let bang = SyntheticToken {
        kind: SyntaxKind::Punct,
        text: "!".to_string(),
        range: range(2, 2),
        id: SyntheticTokenId(8),
    };
    let (tt, map, next) = syntax_node_to_token_tree_with_modifications(
        &node,
        TokenMap::new(),
        5,
        vec![(1, vec![y])],
        vec![(0, vec![bang])],
    );
    assert_eq!(next, 8);
    assert_eq!(tt.token_trees.len(), 3);
    assert_eq!(ident(&tt.token_trees[0]), "y");
    assert_eq!(punct(&tt.token_trees[1]), (';', Spacing::Joint));
    assert_eq!(punct(&tt.token_trees[2]), ('!', Spacing::Alone));
    assert_eq!(map.synthetic_token_id(TokenId(5)), Some(SyntheticTokenId(7)));
    assert_eq!(map.synthetic_token_id(TokenId(6)), None);
    assert_eq!(map.synthetic_token_id(TokenId(7)), Some(SyntheticTokenId(8)));
}

#[test]
fn split_by_separator_keeps_residue() {
    let (tt, _) = parse_to_token_tree(&lex("(1, 2, 3 +)")).unwrap();
    assert_eq!(tt.token_trees.len(), 6);
    let parts = parse_exprs_with_sep(&tt, ',', &vec![1, 0, 1, 0, 2, 0]);
    assert_eq!(parts.len(), 3);
    assert_eq!(parts[0].token_trees.len(), 1);
    assert_eq!(literal(&parts[0].token_trees[0]), "1");
    assert_eq!(literal(&parts[1].token_trees[0]), "2");
    assert!(parts[2].delimiter.is_none());
    assert_eq!(parts[2].token_trees.len(), 2);
    assert_eq!(literal(&parts[2].token_trees[0]), "3");
    assert_eq!(punct(&parts[2].token_trees[1]).0, '+');
}

#[test]
fn split_stops_at_missing_separator() {
    let (tt, _) = parse_to_token_tree(&lex("(1 2)")).unwrap();
    let parts = parse_exprs_with_sep(&tt, ',', &vec![1, 1]);
    assert_eq!(parts.len(), 2);
    assert_eq!(literal(&parts[0].token_trees[0]), "1");
    assert_eq!(literal(&parts[1].token_trees[0]), "2");
}

#[test]
fn split_of_empty_tree_is_empty() {
    let empty = Subtree { delimiter: None, token_trees: Vec::new() };
    assert!(parse_exprs_with_sep(&empty, ',', &Vec::new()).is_empty());
}

#[test]
fn split_single_subtree_expression_is_that_subtree() {
    let (tt, _) = parse_to_token_tree(&lex("[(a), b]")).unwrap();
    let parts = parse_exprs_with_sep(&tt, ',', &vec![1, 0, 1]);
    assert_eq!(parts.len(), 2);
    assert_eq!(parts[0].delimiter.unwrap().kind, DelimiterKind::Parenthesis);
    assert_eq!(ident(&parts[0].token_trees[0]), "a");
}

fn token_texts(events: &[BuildEvent]) -> Vec<String> {
    events
        .iter()
        .filter_map(|e| match e {
            BuildEvent::Token(_, t) => Some(t.clone()),
            _ => None,
        })
        .collect()
}

#[test]
fn sink_replays_tokens_and_positions() {
    let (tt, map) = parse_to_token_tree(&lex("a + b")).unwrap();
    let steps = vec![
        Step::Enter { kind: SyntaxKind::Other(1) },
        Step::Token { kind: SyntaxKind::Ident, n_input_tokens: 1 },
        Step::Token { kind: SyntaxKind::Punct, n_input_tokens: 1 },
        Step::Token { kind: SyntaxKind::Ident, n_input_tokens: 1 },
        Step::Exit,
    ];
    let (parse, new_map) = token_tree_to_syntax_node(&tt, &steps).unwrap();
    assert_eq!(token_texts(&parse.events), vec!["a", "+", "b"]);
    assert_eq!(parse.text_len, 3);
    assert!(matches!(parse.events[0], BuildEvent::StartNode(SyntaxKind::Other(1))));
    assert!(matches!(parse.events[4], BuildEvent::FinishNode));
    assert_eq!(new_map.range_by_token(TokenId(1)), Some(range(1, 2)));
    assert_eq!(map.range_by_token(TokenId(1)), Some(range(2, 3)));
}

#[test]
fn sink_separates_alone_puncts() {
    let (tt, _) = parse_to_token_tree(&lex("= =")).unwrap();
    let steps = vec![
        Step::Token { kind: SyntaxKind::Punct, n_input_tokens: 1 },
        Step::Token { kind: SyntaxKind::Punct, n_input_tokens: 1 },
    ];
    let (parse, map) = token_tree_to_syntax_node(&tt, &steps).unwrap();
    assert_eq!(token_texts(&parse.events), vec!["=", " ", "="]);
    assert!(matches!(parse.events[1], BuildEvent::Token(SyntaxKind::Whitespace, _)));
    assert_eq!(map.range_by_token(TokenId(1)), Some(range(2, 3)));
}

#[test]
fn sink_keeps_joint_puncts_together() {
    let (tt, _) = parse_to_token_tree(&lex("a==b")).unwrap();
    let steps = vec![
        Step::Token { kind: SyntaxKind::Ident, n_input_tokens: 1 },
        Step::Token { kind: SyntaxKind::Other(2), n_input_tokens: 2 },
        Step::Token { kind: SyntaxKind::Ident, n_input_tokens: 1 },
    ];
    let (parse, _) = token_tree_to_syntax_node(&tt, &steps).unwrap();
    assert_eq!(token_texts(&parse.events), vec!["a", "==", "b"]);
    assert_eq!(parse.text_len, 4);
}

#[test]
fn sink_no_space_after_semicolon() {
    let (tt, _) = parse_to_token_tree(&lex("; ;")).unwrap();
    let steps = vec![
        Step::Token { kind: SyntaxKind::Punct, n_input_tokens: 1 },
        Step::Token { kind: SyntaxKind::Punct, n_input_tokens: 1 },
    ];
    let (parse, _) = token_tree_to_syntax_node(&tt, &steps).unwrap();
    assert_eq!(token_texts(&parse.events), vec![";", ";"]);
}

#[test]
fn sink_lifetime_takes_two_leaves() {
    let (tt, _) = parse_to_token_tree(&lex("'a")).unwrap();
    let steps = vec![Step::Token { kind: SyntaxKind::LifetimeIdent, n_input_tokens: 1 }];
    let (parse, _) = token_tree_to_syntax_node(&tt, &steps).unwrap();
    assert_eq!(token_texts(&parse.events), vec!["'a"]);
}

#[test]
fn sink_records_delimiter_pairs_and_errors() {
    let (tt, _) = parse_to_token_tree(&lex("(a)")).unwrap();
    let id = tt.delimiter.unwrap().id;
    let steps = vec![
        Step::Token { kind: SyntaxKind::Punct, n_input_tokens: 1 },
        Step::Token { kind: SyntaxKind::Ident, n_input_tokens: 1 },
        Step::Error { msg: "expected item".to_string() },
        Step::Token { kind: SyntaxKind::Punct, n_input_tokens: 1 },
    ];
    let (parse, map) = token_tree_to_syntax_node(&tt, &steps).unwrap();
    assert_eq!(token_texts(&parse.events), vec!["(", "a", ")"]);
    assert!(matches!(&parse.events[2], BuildEvent::Error(m, 2) if m == "expected item"));
    assert_eq!(map.delim_by_token(id), Some((range(0, 1), range(2, 3))));
}

#[test]
fn round_trip_reproduces_text() {
    let (tt, _) = parse_to_token_tree(&lex("f(x, 'a)")).unwrap();
    let steps = vec![
        Step::Token { kind: SyntaxKind::Ident, n_input_tokens: 1 },
        Step::Token { kind: SyntaxKind::Punct, n_input_tokens: 1 },
        Step::Token { kind: SyntaxKind::Ident, n_input_tokens: 1 },
        Step::Token { kind: SyntaxKind::Punct, n_input_tokens: 1 },
        Step::Token { kind: SyntaxKind::LifetimeIdent, n_input_tokens: 1 },
        Step::Token { kind: SyntaxKind::Punct, n_input_tokens: 1 },
    ];
    let (parse, map) = token_tree_to_syntax_node(&tt, &steps).unwrap();
    assert_eq!(token_texts(&parse.events).concat(), "f(x, 'a)");
    assert_eq!(map.range_by_token(TokenId(2)), Some(range(2, 3)));
}

#[test]
fn explicit_tree_with_delimiter_is_wrapped() {
    let tt = Subtree {
        delimiter: Some(Delimiter { id: TokenId(9), kind: DelimiterKind::Brace }),
        token_trees: vec![TokenTree::Leaf(Leaf::Ident(Ident { text: "x".to_string(), id: TokenId(3) }))],
    };
    let steps = vec![Step::Token { kind: SyntaxKind::Other(3), n_input_tokens: 3 }];
    let (parse, map) = token_tree_to_syntax_node(&tt, &steps).unwrap();
    assert_eq!(token_texts(&parse.events), vec!["{x}"]);
    assert_eq!(map.range_by_token(TokenId(3)), Some(range(1, 2)));
    assert_eq!(map.delim_by_token(TokenId(9)), Some((range(0, 1), range(2, 3))));
    assert_eq!(TokenId::unspecified(), TokenId(u32::MAX));
}

fn all_puncts(tt: &Subtree, out: &mut Vec<char>) {
    for t in &tt.token_trees {
        match t {
            TokenTree::Leaf(Leaf::Punct(p)) => out.push(p.char),
            TokenTree::Subtree(s) => all_puncts(s, out),
            _ => {}
        }
    }
}

#[test]
fn ids_are_unique_and_increasing() {
    let (_, map) = parse_to_token_tree(&lex("fn f<'a>(x: &'a u8) { x::y == [1, 2] }")).unwrap();
    let ids: Vec<u32> = map.entries.iter().map(|(id, _)| id.0).collect();
    assert!(!ids.is_empty());
    for w in ids.windows(2) {
        assert!(w[0] < w[1]);
    }
}

#[test]
fn ranges_stay_inside_the_input() {
    let text = "a(b{c}) ;; 'x";
    let (_, map) = parse_to_token_tree(&lex(text)).unwrap();
    for (_, r) in &map.entries {
        match r {
            TokenTextRange::Token(t) => assert!(t.start <= t.end && t.end as usize <= text.len()),
            TokenTextRange::Delimiter { open, close } => {
                assert!(open.end <= close.start && close.end as usize <= text.len())
            }
        }
    }
}

#[test]
fn delimiter_pairs_point_at_their_characters() {
    let text = "x[y(z)]";
    let (_, map) = parse_to_token_tree(&lex(text)).unwrap();
    let bytes = text.as_bytes();
    let mut pairs = 0;
    for (_, r) in &map.entries {
        if let TokenTextRange::Delimiter { open, close } = r {
            let o = bytes[open.start as usize];
            let c = bytes[close.start as usize];
            assert!((o == b'[' && c == b']') || (o == b'(' && c == b')'));
            pairs += 1;
        }
    }
    assert_eq!(pairs, 2);
}

#[test]
fn every_punct_is_one_ascii_char() {
    let (tt, _) = parse_to_token_tree(&lex("a::b->c => {d..=e} #![x]")).unwrap();
    let mut puncts = Vec::new();
    all_puncts(&tt, &mut puncts);
    assert!(puncts.len() >= 9);
    assert!(puncts.iter().all(|c| c.is_ascii()));
}

fn synthetic(text: &str, tag: u32) -> SyntheticToken {
    SyntheticToken {
        kind: SyntaxKind::Ident,
        text: text.to_string(),
        range: range(0, 0),
        id: SyntheticTokenId(tag),
    }
}

#[test]
fn walk_uses_entries_of_visited_nodes_only() {
    let events = vec![
        WalkEvent::Enter(0),
        WalkEvent::Enter(1),
        tok(SyntaxKind::Ident, "a", 0),
        WalkEvent::Leave(1),
        WalkEvent::Leave(0),
    ];
    let node = SyntaxNode { range: range(0, 1), events };
    let mut replace = vec![(5, vec![synthetic("r", 1)])];
    let mut append = vec![(1, vec![synthetic("x", 2)]), (9, vec![synthetic("y", 3)])];
    let stream = cst_token_stream(&node, &mut replace, &mut append);
    let texts: Vec<&str> = stream.iter().map(|t| t.text.as_str()).collect();
    assert_eq!(texts, vec!["a", "x"]);
    assert_eq!(stream[1].synthetic_id, Some(SyntheticTokenId(2)));
    assert_eq!(replace.len(), 1);
    assert_eq!(append.len(), 1);
    assert_eq!(append[0].0, 9);
}

#[test]
fn replaced_node_is_skipped_but_still_left() {
    let events = vec![
        WalkEvent::Enter(0),
        WalkEvent::Enter(1),
        tok(SyntaxKind::Ident, "a", 0),
        WalkEvent::Enter(2),
        tok(SyntaxKind::Ident, "b", 1),
        WalkEvent::Leave(2),
        WalkEvent::Leave(1),
        tok(SyntaxKind::Ident, "c", 2),
        WalkEvent::Leave(0),
    ];
    let node = SyntaxNode { range: range(0, 3), events };
    let mut replace = vec![(1, vec![synthetic("r", 1)])];
    let mut append = vec![(1, vec![synthetic("s", 2)]), (2, vec![synthetic("t", 3)])];
    let stream = cst_token_stream(&node, &mut replace, &mut append);
    let texts: Vec<&str> = stream.iter().map(|t| t.text.as_str()).collect();
    assert_eq!(texts, vec!["r", "s", "c"]);
    assert!(replace.is_empty());
    assert_eq!(append.len(), 1);
    assert_eq!(append[0].0, 2);
}

#[test]
fn walk_stops_at_token_outside_node() {
    let events = vec![
        WalkEvent::Enter(0),
        tok(SyntaxKind::Ident, "a", 0),
        tok(SyntaxKind::Ident, "z", 5),
        tok(SyntaxKind::Ident, "b", 1),
        WalkEvent::Leave(0),
    ];
    let node = SyntaxNode { range: range(0, 2), events };
    let stream = cst_token_stream(&node, &mut Vec::new(), &mut Vec::new());
    let texts: Vec<&str> = stream.iter().map(|t| t.text.as_str()).collect();
    assert_eq!(texts, vec!["a"]);
}

#[test]
fn leftover_entries_reports_unreached_nodes() {
    let events = vec![
        WalkEvent::Enter(0),
        tok(SyntaxKind::Ident, "a", 0),
        WalkEvent::Leave(0),
    ];
    let node = SyntaxNode { range: range(0, 1), events };
    let (rest_replace, rest_append) = mbe::bridge::leftover_entries(
        &node,
        vec![(7, vec![synthetic("r", 1)])],
        vec![(0, vec![synthetic("x", 2)])],
    );
    assert_eq!(rest_replace.len(), 1);
    assert_eq!(rest_replace[0].0, 7);
    assert!(rest_append.is_empty());
}
