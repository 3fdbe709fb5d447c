//! The entry points: text already lexed, or a syntax tree with injected
//! tokens, turned into a token tree and its map.
use vstd::prelude::*;
use crate::convert::{
    conversion, convert_tokens, init_state, keeps_prefix, result_tree, source_token_wf, source_wf, SourceToken,
    SyntaxKind,
};
use crate::token_map::{entries_within, pairs_ok, TokenIdAlloc, TokenMap, TokenTextRange};
use crate::tt::{
    SyntheticTokenId, TokenId,
    copy_leaf, copy_range, copy_trees, tree_view, trees_view, TreeView, lemma_subtree_wf, subtree_view, subtree_wf, tree_wf, trees_wf, Leaf, Subtree,
    TextRange, TokenTree,
};
use crate::walk::{
    cst_token_stream, keys_unique, no_synthetic, node_wf, stream_bound, synthetic_map_wf, views,
    walk, lemma_walk_empty_maps, SyntaxNode, SyntheticToken, TokenView,
};

verus! {

/// One token as the lexer reports it.
#[derive(Clone, Debug)]
pub struct LexedToken {
    pub kind: SyntaxKind,
    pub text: String,
    pub range: TextRange,
}

/// The lexer's account of a text: its tokens in order, and its errors.
pub struct LexedStr {
    pub tokens: Vec<LexedToken>,
    pub errors: Vec<String>,
}

pub open spec fn lexed_as_source(t: LexedToken) -> SourceToken {
    SourceToken { kind: t.kind, text: t.text, range: t.range, synthetic_id: None }
}

/// What the lexer guarantees of its tokens, in the form the conversion
/// needs.
pub open spec fn lexed_wf(l: LexedStr) -> bool {
    forall|i: int| 0 <= i < l.tokens@.len() ==> #[trigger] source_token_wf(lexed_as_source(l.tokens@[i]), 0)
}

/// Where the last of the tokens ends: the length of the lexed text.
pub open spec fn lexed_end(ts: Seq<LexedToken>) -> int
    decreases ts.len(),
{
    if ts.len() == 0 {
        0
    } else if ts.last().range.end > lexed_end(ts.drop_last()) {
        ts.last().range.end as int
    } else {
        lexed_end(ts.drop_last())
    }
}

proof fn lemma_lexed_end(ts: Seq<LexedToken>)
    ensures
        forall|i: int| 0 <= i < ts.len() ==> (#[trigger] ts[i]).range.end <= lexed_end(ts),
    decreases ts.len(),
{
    if ts.len() > 0 {
        lemma_lexed_end(ts.drop_last());
        assert forall|i: int| 0 <= i < ts.len() implies (#[trigger] ts[i]).range.end <= lexed_end(ts) by {
            if i < ts.len() - 1 {
                assert(ts[i] == ts.drop_last()[i]);
            }
        }
    }
}

/// Each lexed token ends before the next one starts.
pub open spec fn lexed_ordered(ts: Seq<LexedToken>) -> bool {
    forall|i: int, j: int|
        #![trigger ts[i], ts[j]]
        0 <= i < j < ts.len() ==> ts[i].range.end <= ts[j].range.start
}

/// The lexed tokens as the conversion reads them.
pub open spec fn lexed_views(ts: Seq<LexedToken>) -> Seq<TokenView> {
    ts.map_values(|t: LexedToken| (t.kind, t.text@, t.range, None::<SyntheticTokenId>))
}

/// The conversion of lexed text: ids from zero, ranges as lexed.
pub open spec fn lexed_conversion(ts: Seq<LexedToken>) -> crate::convert::ConvState {
    conversion(init_state(0, 0, seq![], seq![]), lexed_views(ts))
}

/// Converts lexed text to a token tree; `None` when the lexer reported an
/// error. Ids start at zero and ranges are those of the text.
pub fn parse_to_token_tree(lexed: &LexedStr) -> (r: Option<(Subtree, TokenMap)>)
    requires
        lexed_wf(*lexed),
        2 * lexed.tokens@.len() <= u32::MAX,
    ensures
        r is None <==> lexed.errors@.len() > 0,
        r matches Some((t, m)) ==> subtree_wf(t) && m.ids_wf((2 * lexed.tokens@.len()) as u32),
        r matches Some((t, m)) ==> entries_within(m.entries@, lexed_end(lexed.tokens@)),
        r matches Some((t, m)) ==> (lexed_ordered(lexed.tokens@) ==> pairs_ok(m.entries@)),
        r matches Some((t, m)) ==> subtree_view(t) == result_tree(lexed_conversion(lexed.tokens@))
            && m.entries@ == lexed_conversion(lexed.tokens@).entries
            && m.synthetic_entries@ == lexed_conversion(lexed.tokens@).synthetic,
{
    if lexed.errors.len() > 0 {
        return None;
    }
    let mut tokens: Vec<SourceToken> = Vec::new();
    let mut i: usize = 0;
    while i < lexed.tokens.len()
        invariant
            i <= lexed.tokens@.len(),
            lexed_wf(*lexed),
            tokens@.len() == i,
            source_wf(tokens@, 0),
            forall|k: int| 0 <= k < i ==> (#[trigger] tokens@[k]).range == lexed.tokens@[k].range,
            forall|k: int| 0 <= k < i ==> #[trigger] tokens@[k] == lexed_as_source(lexed.tokens@[k]),
        decreases lexed.tokens@.len() - i,
    {
        let t = &lexed.tokens[i];
        let s = SourceToken { kind: t.kind, text: t.text.clone(), range: t.range, synthetic_id: None };
        assert(source_token_wf(lexed_as_source(lexed.tokens@[i as int]), 0));
        tokens.push(s);
        i = i + 1;
    }
    let mut id_alloc = TokenIdAlloc { map: TokenMap::new(), global_offset: 0, next_id: 0 };
    proof {
        assert(views(tokens@) =~= lexed_views(lexed.tokens@));
        assert(id_alloc.map.entries@ =~= seq![]);
        assert(id_alloc.map.synthetic_entries@ =~= seq![]);
    }
    proof {
        lemma_lexed_end(lexed.tokens@);
        assert forall|k: int| 0 <= k < tokens@.len() implies (#[trigger] tokens@[k]).range.end <= lexed_end(lexed.tokens@) by {
            assert(lexed.tokens@[k].range.end <= lexed_end(lexed.tokens@));
        }
    }
    proof {
        if lexed_ordered(lexed.tokens@) {
            assert forall|a: int, b: int|
                #![trigger tokens@[a], tokens@[b]]
                0 <= a < b < tokens@.len() implies tokens@[a].range.end <= tokens@[b].range.start by {
                assert(lexed.tokens@[a].range.end <= lexed.tokens@[b].range.start);
            }
        }
    }
    let subtree = convert_tokens(&tokens, &mut id_alloc, Ghost(lexed_end(lexed.tokens@)));
    proof {
        let bound = (2 * lexed.tokens@.len()) as u32;
        assert forall|k: int| 0 <= k < id_alloc.map.entries@.len() implies id_alloc.map.entries@[k].0.0 < bound by {}
        assert forall|k: int| 0 <= k < id_alloc.map.synthetic_entries@.len() implies id_alloc.map.synthetic_entries@[k].0.0 < bound by {}
    }
    Some((subtree, id_alloc.map))
}

/// The conversion of the walk over `node`, continuing the map `entries`,
/// `synthetic` from `next_id`.
pub open spec fn node_conversion(
    node: SyntaxNode,
    entries: Seq<(TokenId, TokenTextRange)>,
    synthetic: Seq<(TokenId, SyntheticTokenId)>,
    next_id: u32,
    replace: Seq<(u32, Vec<SyntheticToken>)>,
    append: Seq<(u32, Vec<SyntheticToken>)>,
) -> crate::convert::ConvState {
    conversion(
        init_state(node.range.start, next_id, entries, synthetic),
        walk(node.events@, 0, node.range, replace, append).0,
    )
}

/// Converts `node` to a token tree, with the tokens of `replace` in place of
/// the nodes they are keyed by and those of `append` after them; each node is
/// keyed at most once. Ids are
/// minted from `next_id` on and recorded in `existing_token_map`, ranges
/// relative to the start of `node`. Returns the tree, the map and the next
/// free id. Every entry of `replace` and `append` must be used by the walk:
/// one that names no node the walk reaches is a caller error.
pub fn syntax_node_to_token_tree_with_modifications(
    node: &SyntaxNode,
    existing_token_map: TokenMap,
    next_id: u32,
    replace: Vec<(u32, Vec<SyntheticToken>)>,
    append: Vec<(u32, Vec<SyntheticToken>)>,
) -> (r: (Subtree, TokenMap, u32))
    requires
        node_wf(*node),
        synthetic_map_wf(replace@, node.range.start),
        synthetic_map_wf(append@, node.range.start),
        keys_unique(replace@),
        keys_unique(append@),
        existing_token_map.ids_wf(next_id),
        next_id + 2 * stream_bound(*node, replace@, append@) <= u32::MAX,
        walk(node.events@, 0, node.range, replace@, append@).1.len() == 0,
        walk(node.events@, 0, node.range, replace@, append@).2.len() == 0,
    ensures
        subtree_view(r.0) == result_tree(node_conversion(*node, existing_token_map.entries@, existing_token_map.synthetic_entries@, next_id, replace@, append@)),
        r.1.entries@ == node_conversion(*node, existing_token_map.entries@, existing_token_map.synthetic_entries@, next_id, replace@, append@).entries,
        r.1.synthetic_entries@ == node_conversion(*node, existing_token_map.entries@, existing_token_map.synthetic_entries@, next_id, replace@, append@).synthetic,
        r.2 == node_conversion(*node, existing_token_map.entries@, existing_token_map.synthetic_entries@, next_id, replace@, append@).next_id,
        keeps_prefix(r.1.entries@, existing_token_map.entries@, next_id),
        keeps_prefix(r.1.synthetic_entries@, existing_token_map.synthetic_entries@, next_id),
        subtree_wf(r.0),
        r.1.ids_wf(r.2),
        next_id <= r.2 <= next_id + 2 * stream_bound(*node, replace@, append@),
        replace@.len() == 0 && append@.len() == 0 && entries_within(
            existing_token_map.entries@,
            node.range.spec_len(),
        ) ==> entries_within(r.1.entries@, node.range.spec_len()),
{
    let mut replace = replace;
    let mut append = append;
    let tokens = cst_token_stream(node, &mut replace, &mut append);
    let mut id_alloc = TokenIdAlloc {
        map: existing_token_map,
        global_offset: node.range.start,
        next_id,
    };
    proof {
        if no_synthetic(tokens@) {
            assert forall|k: int| 0 <= k < tokens@.len() implies (#[trigger] tokens@[k]).range.end <= node.range.end by {
                assert(tokens@[k].synthetic_id is None);
            }
        }
    }
    let subtree = convert_tokens(&tokens, &mut id_alloc, Ghost(node.range.end as int));
    (subtree, id_alloc.map, id_alloc.next_id)
}

/// The entries of `replace` and `append` that a walk over `node` would leave
/// unused. A conversion with modifications asks for none: a caller checks
/// its maps here first (on copies, since the maps are handed over).
pub fn leftover_entries(
    node: &SyntaxNode,
    replace: Vec<(u32, Vec<SyntheticToken>)>,
    append: Vec<(u32, Vec<SyntheticToken>)>,
) -> (r: (Vec<(u32, Vec<SyntheticToken>)>, Vec<(u32, Vec<SyntheticToken>)>))
    requires
        node_wf(*node),
        synthetic_map_wf(replace@, node.range.start),
        synthetic_map_wf(append@, node.range.start),
    ensures
        r.0@ == walk(node.events@, 0, node.range, replace@, append@).1,
        r.1@ == walk(node.events@, 0, node.range, replace@, append@).2,
{
    let mut replace = replace;
    let mut append = append;
    let _ = cst_token_stream(node, &mut replace, &mut append);
    (replace, append)
}

/// Converts `node` to a token tree with a fresh map whose ids start at zero.
pub fn syntax_node_to_token_tree(node: &SyntaxNode) -> (r: (Subtree, TokenMap))
    requires
        node_wf(*node),
        2 * stream_bound(*node, Seq::empty(), Seq::empty()) <= u32::MAX,
    ensures
        subtree_view(r.0) == result_tree(node_conversion(*node, seq![], seq![], 0, seq![], seq![])),
        r.1.entries@ == node_conversion(*node, seq![], seq![], 0, seq![], seq![]).entries,
        r.1.synthetic_entries@ == node_conversion(*node, seq![], seq![], 0, seq![], seq![]).synthetic,
        subtree_wf(r.0),
        r.1.ids_wf((2 * stream_bound(*node, Seq::empty(), Seq::empty())) as u32),
        entries_within(r.1.entries@, node.range.spec_len()),
{
    let replace: Vec<(u32, Vec<SyntheticToken>)> = Vec::new();
    let append: Vec<(u32, Vec<SyntheticToken>)> = Vec::new();
    proof {
        assert(replace@ =~= Seq::empty());
        assert(append@ =~= Seq::empty());
        lemma_walk_empty_maps(node.events@, 0, node.range);
    }
    let fresh = TokenMap::new();
    proof {
        assert(fresh.entries@ =~= seq![]);
        assert(fresh.synthetic_entries@ =~= seq![]);
    }
    let (subtree, map, next) = syntax_node_to_token_tree_with_modifications(
        node,
        fresh,
        0,
        replace,
        append,
    );
    proof {
        let bound = (2 * stream_bound(*node, Seq::empty(), Seq::empty())) as u32;
        assert forall|k: int| 0 <= k < map.entries@.len() implies map.entries@[k].0.0 < bound by {}
        assert forall|k: int| 0 <= k < map.synthetic_entries@.len() implies map.synthetic_entries@[k].0.0 < bound by {}
    }
    (subtree, map)
}

/// The child `t` is the punct `sep`.
pub open spec fn is_sep(t: TokenTree, sep: char) -> bool {
    t matches TokenTree::Leaf(Leaf::Punct(p)) && p.char == sep
}

/// Parser answers that fit `n` children: from each position the expression
/// parser takes at most what is left.
pub open spec fn expr_lens_wf(expr_lens: Seq<usize>, n: int) -> bool {
    &&& expr_lens.len() == n
    &&& forall|i: int| 0 <= i < n ==> i + #[trigger] expr_lens[i] <= n
}

/// How many subtrees the split makes of the children of `ts` from `pos` on.
pub open spec fn split_count(ts: Seq<TokenTree>, sep: char, expr_lens: Seq<usize>, pos: int) -> nat
    decreases ts.len() - pos,
{
    if pos < 0 || pos >= ts.len() {
        0
    } else if expr_lens[pos] == 0 {
        1
    } else {
        let next = pos + expr_lens[pos];
        if next < ts.len() && is_sep(ts[next], sep) {
            1 + split_count(ts, sep, expr_lens, next + 1)
        } else if next < ts.len() {
            2
        } else {
            1
        }
    }
}

/// The part that the expression of `k` children at `pos` makes: a lone leaf
/// wrapped in a subtree without delimiter, a lone subtree as it is, several
/// children under a subtree without delimiter.
pub open spec fn expr_part(ts: Seq<TokenTree>, pos: int, k: int) -> TreeView {
    if k == 1 {
        match ts[pos] {
            TokenTree::Leaf(_) => TreeView::Node(None, seq![tree_view(ts[pos])]),
            TokenTree::Subtree(s) => subtree_view(s),
        }
    } else {
        TreeView::Node(None, trees_view(ts.subrange(pos, pos + k)))
    }
}

/// What is left from `pos` on, as a last part.
pub open spec fn rest_part(ts: Seq<TokenTree>, pos: int) -> TreeView {
    TreeView::Node(None, trees_view(ts.subrange(pos, ts.len() as int)))
}

/// The parts that the split makes of the children of `ts` from `pos` on.
pub open spec fn split_parts(ts: Seq<TokenTree>, sep: char, expr_lens: Seq<usize>, pos: int) -> Seq<TreeView>
    decreases ts.len() - pos,
{
    if pos < 0 || pos >= ts.len() {
        seq![]
    } else if expr_lens[pos] == 0 {
        seq![rest_part(ts, pos)]
    } else {
        let next = pos + expr_lens[pos];
        let item = expr_part(ts, pos, expr_lens[pos] as int);
        if next < ts.len() && is_sep(ts[next], sep) {
            seq![item] + split_parts(ts, sep, expr_lens, next + 1)
        } else if next < ts.len() {
            seq![item, rest_part(ts, next)]
        } else {
            seq![item]
        }
    }
}

pub open spec fn parts_view(r: Seq<Subtree>) -> Seq<TreeView> {
    r.map_values(|s: Subtree| subtree_view(s))
}

/// Splits the children of `tt` into expressions separated by the punct
/// `sep`. `expr_lens[i]` is the number of children, from the `i`-th on, that
/// the expression parser takes (zero where no expression starts). An
/// expression of one child is that child as a subtree; the first place with
/// no expression or no separator ends the split, and what is left becomes a
/// last subtree without delimiter.
pub fn parse_exprs_with_sep(tt: &Subtree, sep: char, expr_lens: &Vec<usize>) -> (r: Vec<Subtree>)
    requires
        subtree_wf(*tt),
        expr_lens_wf(expr_lens@, tt.token_trees@.len() as int),
    ensures
        parts_view(r@) == split_parts(tt.token_trees@, sep, expr_lens@, 0),
        r@.len() == split_count(tt.token_trees@, sep, expr_lens@, 0),
        r@.len() == 0 <==> tt.token_trees@.len() == 0,
        r@.len() <= tt.token_trees@.len(),
        forall|k: int| 0 <= k < r@.len() ==> subtree_wf(#[trigger] r@[k]),
{
    let ts = &tt.token_trees;
    let n = ts.len();
    let ghost total = split_count(ts@, sep, expr_lens@, 0);
    let ghost parts = split_parts(ts@, sep, expr_lens@, 0);
    let mut res: Vec<Subtree> = Vec::new();
    let mut pos: usize = 0;
    let mut stopped = false;
    while pos < n && !stopped
        invariant
            n == ts@.len(),
            pos <= n,
            expr_lens_wf(expr_lens@, n as int),
            trees_wf(ts@),
            pos > 0 ==> res@.len() > 0,
            res@.len() <= pos,
            !stopped ==> res@.len() + split_count(ts@, sep, expr_lens@, pos as int) == total,
            stopped ==> res@.len() + 1 == total && pos < n,
            !stopped ==> parts_view(res@) + split_parts(ts@, sep, expr_lens@, pos as int) == parts,
            stopped ==> parts_view(res@).push(rest_part(ts@, pos as int)) == parts,
            forall|k: int| 0 <= k < res@.len() ==> subtree_wf(#[trigger] res@[k]),
        decreases n - pos + (if stopped { 0int } else { 1int }),
    {
        let k = expr_lens[pos];
        let ghost pv = parts_view(res@);
        let ghost pos0 = pos as int;
        if k == 0 {
            stopped = true;
            proof {
                assert(pv + split_parts(ts@, sep, expr_lens@, pos0) =~= pv.push(rest_part(ts@, pos0)));
            }
        } else {
            let item = if k == 1 {
                assert(tree_wf(ts@[pos as int]));
                match &ts[pos] {
                    TokenTree::Leaf(l) => {
                        let mut v: Vec<TokenTree> = Vec::new();
                        let leaf = TokenTree::Leaf(copy_leaf(l));
                        v.push(leaf);
                        proof {
                            assert(tree_wf(v@[0]));
                            assert(trees_view(v@) =~= seq![tree_view(ts@[pos as int])]);
                        }
                        Subtree { delimiter: None, token_trees: v }
                    },
                    TokenTree::Subtree(s) => {
                        proof {
                            lemma_subtree_wf(*s);
                        }
                        Subtree { delimiter: s.delimiter, token_trees: copy_trees(&s.token_trees) }
                    },
                }
            } else {
                Subtree { delimiter: None, token_trees: copy_range(ts, pos, pos + k) }
            };
            proof {
                assert(subtree_view(item) == expr_part(ts@, pos0, k as int));
            }
            res.push(item);
            proof {
                assert(parts_view(res@) =~= pv.push(subtree_view(item)));
            }
            let next = pos + k;
            if next < n {
                let is_separator = match &ts[next] {
                    TokenTree::Leaf(Leaf::Punct(p)) => p.char == sep,
                    _ => false,
                };
                if is_separator {
                    pos = next + 1;
                    proof {
                        assert(pv.push(subtree_view(item)) + split_parts(ts@, sep, expr_lens@, pos as int) =~= pv
                            + split_parts(ts@, sep, expr_lens@, pos0));
                    }
                } else {
                    pos = next;
                    stopped = true;
                    proof {
                        assert(pv.push(subtree_view(item)).push(rest_part(ts@, pos as int)) =~= pv
                            + split_parts(ts@, sep, expr_lens@, pos0));
                    }
                }
            } else {
                pos = next;
                proof {
                    assert(pv.push(subtree_view(item)) + split_parts(ts@, sep, expr_lens@, pos as int) =~= pv
                        + split_parts(ts@, sep, expr_lens@, pos0));
                }
            }
        }
    }
    let ghost pv = parts_view(res@);
    if pos < n {
        res.push(Subtree { delimiter: None, token_trees: copy_range(ts, pos, n) });
        proof {
            assert(parts_view(res@) =~= pv.push(rest_part(ts@, pos as int)));
        }
    } else {
        proof {
            assert(pv + split_parts(ts@, sep, expr_lens@, pos as int) =~= pv);
        }
    }
    res
}

} // verus!
