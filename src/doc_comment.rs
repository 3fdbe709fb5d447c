//! Doc comments turned into the attribute form `#[doc = "..."]`.
use vstd::prelude::*;
use vstd::string::*;
use crate::tt::{trees_wf, tree_wf, trees_view, LeafView, TreeView, Delimiter, DelimiterKind, Ident, Leaf, Literal, Punct, Spacing, Subtree, TokenId, TokenTree};

verus! {

#[derive(Clone, Copy, Debug, PartialEq, Eq, Structural)]
pub enum CommentShape {
    Line,
    Block,
}

#[derive(Clone, Copy, Debug, PartialEq, Eq, Structural)]
pub enum CommentPlacement {
    Inner,
    Outer,
}

pub open spec fn char_at(t: Seq<char>, i: int) -> Option<char> {
    if 0 <= i < t.len() {
        Some(t[i])
    } else {
        None
    }
}

/// Shape and placement of the doc comment `t`, or `None` when `t` is not a
/// doc comment. `///`, `//!`, `/**` and `/*!` open doc comments; `////`,
/// `/***` and `/**/` do not.
pub open spec fn doc_kind(t: Seq<char>) -> Option<(CommentShape, CommentPlacement)> {
    if char_at(t, 0) == Some('/') && char_at(t, 1) == Some('/') {
        if char_at(t, 2) == Some('/') && char_at(t, 3) != Some('/') {
            Some((CommentShape::Line, CommentPlacement::Outer))
        } else if char_at(t, 2) == Some('!') {
            Some((CommentShape::Line, CommentPlacement::Inner))
        } else {
            None
        }
    } else if char_at(t, 0) == Some('/') && char_at(t, 1) == Some('*') {
        if char_at(t, 2) == Some('*') && char_at(t, 3) != Some('/') && char_at(t, 3) != Some('*') {
            Some((CommentShape::Block, CommentPlacement::Outer))
        } else if char_at(t, 2) == Some('!') {
            Some((CommentShape::Block, CommentPlacement::Inner))
        } else {
            None
        }
    } else {
        None
    }
}

/// The text of a doc comment without its three-character opener and, for a
/// block comment, without the closing `*/`.
pub open spec fn doc_body(t: Seq<char>, shape: CommentShape) -> Seq<char> {
    if shape == CommentShape::Block && t.len() >= 5 && t[t.len() - 2] == '*' && t[t.len() - 1]
        == '/' {
        t.subrange(3, t.len() - 2)
    } else {
        t.subrange(3, t.len() as int)
    }
}

/// What `str::escape_debug` makes of the characters `s`.
pub uninterp spec fn escape_debug_of(s: Seq<char>) -> Seq<char>;

/// Relies on `str::escape_debug`: the escaped text depends on the characters
/// alone.
#[verifier::external_body]
fn escape_debug(s: &str) -> (r: String)
    ensures
        r@ == escape_debug_of(s@),
{
    s.escape_debug().to_string()
}

/// The string literal that carries the doc text: the escaped body in double
/// quotes.
pub open spec fn doc_literal_text(t: Seq<char>, shape: CommentShape) -> Seq<char> {
    seq!['"'] + escape_debug_of(doc_body(t, shape)) + seq!['"']
}

pub open spec fn is_punct_leaf(t: TokenTree, c: char, spacing: Spacing, id: TokenId) -> bool {
    t matches TokenTree::Leaf(Leaf::Punct(p)) && p.char == c && p.spacing == spacing && p.id == id
}

/// `t` is `[doc = "..."]` with the literal `lit` under the id `id`.
pub open spec fn is_doc_meta(t: TokenTree, lit: Seq<char>, id: TokenId) -> bool {
    &&& t matches TokenTree::Subtree(s)
    &&& s.delimiter == Some(
        Delimiter { id: TokenId(crate::tt::UNSPECIFIED_ID), kind: DelimiterKind::Bracket },
    )
    &&& s.token_trees@.len() == 3
    &&& s.token_trees@[0] matches TokenTree::Leaf(Leaf::Ident(i))
    &&& i.text@ == seq!['d', 'o', 'c'] && i.id.0 == crate::tt::UNSPECIFIED_ID
    &&& is_punct_leaf(s.token_trees@[1], '=', Spacing::Alone, TokenId(crate::tt::UNSPECIFIED_ID))
    &&& s.token_trees@[2] matches TokenTree::Leaf(Leaf::Literal(l))
    &&& l.text@ == lit && l.id == id
}

/// The attribute that the doc comment `t` stands for: `#`, then `!` for an
/// inner comment, then the bracketed meta.
pub open spec fn is_doc_attr(r: Seq<TokenTree>, t: Seq<char>, id: TokenId) -> bool {
    let unspecified = TokenId(crate::tt::UNSPECIFIED_ID);
    match doc_kind(t) {
        None => false,
        Some((shape, placement)) => {
            let lit = doc_literal_text(t, shape);
            &&& is_punct_leaf(r[0], '#', Spacing::Alone, unspecified)
            &&& placement == CommentPlacement::Inner ==> r.len() == 3 && is_punct_leaf(
                r[1],
                '!',
                Spacing::Alone,
                unspecified,
            ) && is_doc_meta(r[2], lit, id)
            &&& placement == CommentPlacement::Outer ==> r.len() == 2 && is_doc_meta(r[1], lit, id)
        },
    }
}

/// The trees of the attribute that the doc comment `t` stands for, with `id`
/// on its literal.
pub open spec fn doc_views(t: Seq<char>, id: TokenId) -> Seq<TreeView> {
    let unspecified = TokenId(crate::tt::UNSPECIFIED_ID);
    match doc_kind(t) {
        None => seq![],
        Some((shape, placement)) => {
            let meta = TreeView::Node(
                Some(Delimiter { id: unspecified, kind: DelimiterKind::Bracket }),
                seq![
                    TreeView::Leaf(LeafView::Ident(seq!['d', 'o', 'c'], unspecified)),
                    TreeView::Leaf(LeafView::Punct('=', Spacing::Alone, unspecified)),
                    TreeView::Leaf(LeafView::Literal(doc_literal_text(t, shape), id)),
                ],
            );
            let hash = TreeView::Leaf(LeafView::Punct('#', Spacing::Alone, unspecified));
            if placement == CommentPlacement::Inner {
                seq![hash, TreeView::Leaf(LeafView::Punct('!', Spacing::Alone, unspecified)), meta]
            } else {
                seq![hash, meta]
            }
        },
    }
}

fn get(t: &str, n: usize, i: usize) -> (r: Option<char>)
    requires
        n == t@.len(),
    ensures
        r == char_at(t@, i as int),
{
    if i < n {
        Some(t.get_char(i))
    } else {
        None
    }
}

/// Shape and placement of the doc comment `text`, if it is one.
pub fn comment_doc_kind(text: &str) -> (r: Option<(CommentShape, CommentPlacement)>)
    ensures
        r == doc_kind(text@),
{
    let n = text.unicode_len();
    let c0 = get(text, n, 0);
    let c1 = get(text, n, 1);
    let c2 = get(text, n, 2);
    let c3 = get(text, n, 3);
    if c0 == Some('/') && c1 == Some('/') {
        if c2 == Some('/') && c3 != Some('/') {
            Some((CommentShape::Line, CommentPlacement::Outer))
        } else if c2 == Some('!') {
            Some((CommentShape::Line, CommentPlacement::Inner))
        } else {
            None
        }
    } else if c0 == Some('/') && c1 == Some('*') {
        if c2 == Some('*') && c3 != Some('/') && c3 != Some('*') {
            Some((CommentShape::Block, CommentPlacement::Outer))
        } else if c2 == Some('!') {
            Some((CommentShape::Block, CommentPlacement::Inner))
        } else {
            None
        }
    } else {
        None
    }
}

/// The quoted, escaped text of the doc comment `text` of shape `shape`.
pub fn doc_comment_text(text: &str, shape: CommentShape) -> (r: String)
    requires
        text@.len() >= 3,
    ensures
        r@ == doc_literal_text(text@, shape),
{
    let n = text.unicode_len();
    let end = if shape == CommentShape::Block && n >= 5 && text.get_char(n - 2) == '*'
        && text.get_char(n - 1) == '/' {
        n - 2
    } else {
        n
    };
    let body = text.substring_char(3, end);
    let escaped = escape_debug(body);
    let mut r = String::from_str("\"");
    r.append(escaped.as_str());
    r.append("\"");
    proof {
        reveal_strlit("\"");
        assert(r@ =~= doc_literal_text(text@, shape));
    }
    r
}

fn punct(c: char) -> (r: TokenTree)
    ensures
        is_punct_leaf(r, c, Spacing::Alone, TokenId(crate::tt::UNSPECIFIED_ID)),
{
    TokenTree::Leaf(Leaf::Punct(Punct { char: c, spacing: Spacing::Alone, id: TokenId::unspecified() }))
}

/// The attribute form of the doc comment `text`, with `literal_id` on its
/// string literal; `None` when `text` is not a doc comment.
pub fn convert_doc_comment(text: &str, literal_id: TokenId) -> (r: Option<Vec<TokenTree>>)
    ensures
        r is Some <==> doc_kind(text@) is Some,
        r matches Some(v) ==> is_doc_attr(v@, text@, literal_id),
        r matches Some(v) ==> trees_wf(v@),
        r matches Some(v) ==> trees_view(v@) == doc_views(text@, literal_id),
{
    let (shape, placement) = match comment_doc_kind(text) {
        Some(k) => k,
        None => return None,
    };
    let lit = doc_comment_text(text, shape);
    let doc = String::from_str("doc");
    proof {
        reveal_strlit("doc");
    }
    let mut meta: Vec<TokenTree> = Vec::new();
    meta.push(TokenTree::Leaf(Leaf::Ident(Ident { text: doc, id: TokenId::unspecified() })));
    meta.push(punct('='));
    meta.push(TokenTree::Leaf(Leaf::Literal(Literal { text: lit, id: literal_id })));
    let mut token_trees: Vec<TokenTree> = Vec::new();
    token_trees.push(punct('#'));
    if placement == CommentPlacement::Inner {
        token_trees.push(punct('!'));
    }
    token_trees.push(
        TokenTree::Subtree(
            Subtree {
                delimiter: Some(Delimiter { kind: DelimiterKind::Bracket, id: TokenId::unspecified() }),
                token_trees: meta,
            },
        ),
    );
    proof {
        assert(doc@ =~= seq!['d', 'o', 'c']);
        assert(tree_wf(meta@[0]) && tree_wf(meta@[1]) && tree_wf(meta@[2]));
        assert(tree_wf(token_trees@[token_trees@.len() - 1]));
        let last = token_trees@[token_trees@.len() - 1];
        crate::tt::lemma_subtree_view(last->Subtree_0);
        assert(trees_view(meta@) =~= doc_views(text@, literal_id).last()->Node_1);
        assert(trees_view(token_trees@) =~= doc_views(text@, literal_id));
    }
    Some(token_trees)
}

} // verus!
