//! Token streams turned into token trees: delimiters grouped, puncts given
//! their spacing, doc comments desugared, ids recorded.
use vstd::prelude::*;
use vstd::string::*;
use crate::doc_comment::{convert_doc_comment, doc_kind, doc_views};
use crate::walk::{source_view, views, TokenView};
use crate::token_map::{
    entries_within, lemma_pairs_changed, lemma_pairs_remove, lemma_within_changed,
    lemma_within_remove, pair_ok, pairs_ok, range_ends_by, TokenIdAlloc, TokenTextRange,
};
use crate::tt::{
    is_ascii_char, tree_wf, trees_wf, subtree_wf, Delimiter, DelimiterKind, Ident, Leaf,
    Literal, Punct, Spacing, Subtree, SyntheticTokenId, TextRange, TokenTree, TokenId, LeafView,
    TreeView, trees_view, subtree_view, tree_view, lemma_subtree_view,
};

verus! {

/// The kinds of source tokens that the conversion tells apart.
#[derive(Clone, Copy, Debug, PartialEq, Eq, Structural)]
pub enum SyntaxKind {
    Ident,
    Keyword,
    Underscore,
    Literal,
    LifetimeIdent,
    Punct,
    Comment,
    Whitespace,
    Error,
    Other(u16),
}

/// A token as a source hands it to the conversion.
#[derive(Clone, Debug)]
pub struct SourceToken {
    pub kind: SyntaxKind,
    pub text: String,
    pub range: TextRange,
    pub synthetic_id: Option<SyntheticTokenId>,
}

/// What the conversion needs of a token: an ordered range past
/// `global_offset`; a punct is one ASCII character, one byte long unless it
/// was injected; identifiers are not empty; a lifetime is `'` and a name.
pub open spec fn source_token_wf(t: SourceToken, global_offset: u32) -> bool {
    &&& t.range.wf()
    &&& global_offset <= t.range.start
    &&& t.kind == SyntaxKind::Punct ==> t.text@.len() == 1 && is_ascii_char(t.text@[0]) && (
    t.synthetic_id is None ==> t.range.spec_len() == 1)
    &&& (t.kind == SyntaxKind::Ident || t.kind == SyntaxKind::Keyword || t.kind
        == SyntaxKind::Underscore) ==> t.text@.len() > 0
    &&& t.kind == SyntaxKind::LifetimeIdent ==> t.text@.len() >= 2 && t.text@[0] == '\''
        && t.range.spec_len() >= 1
}

pub open spec fn source_wf(ts: Seq<SourceToken>, global_offset: u32) -> bool {
    forall|i: int| 0 <= i < ts.len() ==> #[trigger] source_token_wf(ts[i], global_offset)
}

/// Every token of `ts` ends at or before `limit`.
pub open spec fn tokens_within(ts: Seq<SourceToken>, limit: int) -> bool {
    forall|i: int| 0 <= i < ts.len() ==> (#[trigger] ts[i]).range.end <= limit
}

/// Each token ends before the next one starts.
pub open spec fn tokens_ordered(ts: Seq<SourceToken>) -> bool {
    forall|i: int, j: int|
        #![trigger ts[i], ts[j]]
        0 <= i < j < ts.len() ==> ts[i].range.end <= ts[j].range.start
}

pub open spec fn is_open_delim_char(c: char) -> bool {
    c == '(' || c == '{' || c == '['
}

/// A punct is joint exactly when the next token is a punct that opens no
/// delimiter.
pub open spec fn spacing_before(next: Option<TokenView>) -> Spacing {
    match next {
        Some(t) => if t.0 == SyntaxKind::Punct && t.1.len() > 0 && !is_open_delim_char(t.1[0]) {
            Spacing::Joint
        } else {
            Spacing::Alone
        },
        None => Spacing::Alone,
    }
}

/// The spacing of a punct followed by `next`.
pub fn spacing_for(next: Option<&SourceToken>) -> (r: Spacing)
    requires
        next matches Some(t) ==> t.kind == SyntaxKind::Punct ==> t.text@.len() > 0,
    ensures
        r == spacing_before(
            match next {
                Some(t) => Some(source_view(*t)),
                None => None,
            },
        ),
{
    match next {
        Some(t) => {
            if t.kind == SyntaxKind::Punct {
                let c = t.text.as_str().get_char(0);
                if c == '(' || c == '{' || c == '[' {
                    Spacing::Alone
                } else {
                    Spacing::Joint
                }
            } else {
                Spacing::Alone
            }
        },
        None => Spacing::Alone,
    }
}

/// The delimiter that the punct `c` opens.
pub open spec fn open_delim_kind(c: char) -> Option<DelimiterKind> {
    if c == '(' {
        Some(DelimiterKind::Parenthesis)
    } else if c == '{' {
        Some(DelimiterKind::Brace)
    } else if c == '[' {
        Some(DelimiterKind::Bracket)
    } else {
        None
    }
}

fn delim_kind_of(c: char) -> (r: Option<DelimiterKind>)
    ensures
        r == open_delim_kind(c),
{
    if c == '(' {
        Some(DelimiterKind::Parenthesis)
    } else if c == '{' {
        Some(DelimiterKind::Brace)
    } else if c == '[' {
        Some(DelimiterKind::Bracket)
    } else {
        None
    }
}


/// An open subtree while the conversion runs: its delimiter, the trees
/// gathered so far, the slot of its pair in the map and its opener's range.
pub struct FrameView {
    pub delim: Option<Delimiter>,
    pub children: Seq<TreeView>,
    pub idx: usize,
    pub open: TextRange,
}

/// The state of a conversion: the open subtrees (the root first), the next
/// free id, and the map's ordinary and synthetic entries.
pub struct ConvState {
    pub frames: Seq<FrameView>,
    pub next_id: u32,
    pub entries: Seq<(TokenId, TokenTextRange)>,
    pub synthetic: Seq<(TokenId, SyntheticTokenId)>,
    pub offset: u32,
}

/// The state before the first token: only the root is open.
pub open spec fn init_state(
    offset: u32,
    next_id: u32,
    entries: Seq<(TokenId, TokenTextRange)>,
    synthetic: Seq<(TokenId, SyntheticTokenId)>,
) -> ConvState {
    ConvState {
        frames: seq![FrameView { delim: None, children: seq![], idx: 0, open: TextRange { start: 0, end: 0 } }],
        next_id,
        entries,
        synthetic,
        offset,
    }
}

/// Mints the next id for `range` (made relative), with its tag if any.
pub open spec fn alloc_state(st: ConvState, range: TextRange, synth: Option<SyntheticTokenId>) -> ConvState {
    let id = TokenId(st.next_id);
    ConvState {
        next_id: (st.next_id + 1) as u32,
        entries: st.entries.push((id, TokenTextRange::Token(range.shifted(st.offset)))),
        synthetic: match synth {
            Some(s) => st.synthetic.push((id, s)),
            None => st.synthetic,
        },
        ..st
    }
}

/// Adds `cs` to the trees of the innermost open subtree.
pub open spec fn add_children(st: ConvState, cs: Seq<TreeView>) -> ConvState {
    let top = st.frames.last();
    ConvState {
        frames: st.frames.update(
            st.frames.len() - 1,
            FrameView { children: top.children + cs, ..top },
        ),
        ..st
    }
}

pub open spec fn leaf_tree(l: LeafView) -> TreeView {
    TreeView::Leaf(l)
}

/// One token of the stream `ts`, at `pos`, taken into the state.
pub open spec fn step(st: ConvState, ts: Seq<TokenView>, pos: int) -> ConvState {
    let t = ts[pos];
    let (kind, text, range, synth) = t;
    let next = if pos + 1 < ts.len() {
        Some(ts[pos + 1])
    } else {
        None
    };
    let id = TokenId(st.next_id);
    let top = st.frames.last();
    if kind == SyntaxKind::Comment {
        if synth is None && doc_kind(text) is Some {
            add_children(alloc_state(st, range, synth), doc_views(text, id))
        } else {
            st
        }
    } else if kind == SyntaxKind::Punct {
        let c = text[0];
        if top.delim matches Some(d) && c == d.kind.spec_close_char() {
            let e = st.entries[top.idx as int];
            let frames = st.frames.drop_last();
            let parent = frames.last();
            ConvState {
                frames: frames.update(
                    frames.len() - 1,
                    FrameView {
                        children: parent.children.push(TreeView::Node(top.delim, top.children)),
                        ..parent
                    },
                ),
                entries: st.entries.update(
                    top.idx as int,
                    (e.0, TokenTextRange::Delimiter { open: e.1->open, close: range.shifted(st.offset) }),
                ),
                ..st
            }
        } else if open_delim_kind(c) is Some {
            let dk = open_delim_kind(c)->Some_0;
            let rel = range.shifted(st.offset);
            ConvState {
                frames: st.frames.push(
                    FrameView {
                        delim: Some(Delimiter { id, kind: dk }),
                        children: seq![],
                        idx: st.entries.len() as usize,
                        open: range,
                    },
                ),
                next_id: (st.next_id + 1) as u32,
                entries: st.entries.push((id, TokenTextRange::Delimiter { open: rel, close: rel })),
                ..st
            }
        } else {
            add_children(
                alloc_state(st, range, synth),
                seq![leaf_tree(LeafView::Punct(c, spacing_before(next), id))],
            )
        }
    } else if kind == SyntaxKind::Ident || kind == SyntaxKind::Keyword || kind == SyntaxKind::Underscore {
        add_children(alloc_state(st, range, synth), seq![leaf_tree(LeafView::Ident(text, id))])
    } else if kind == SyntaxKind::Literal {
        add_children(alloc_state(st, range, synth), seq![leaf_tree(LeafView::Literal(text, id))])
    } else if kind == SyntaxKind::LifetimeIdent {
        let r1 = TextRange { start: range.start, end: (range.start + 1) as u32 };
        let r2 = TextRange { start: (range.start + 1) as u32, end: range.end };
        let st2 = alloc_state(alloc_state(st, r1, synth), r2, synth);
        add_children(
            st2,
            seq![
                leaf_tree(LeafView::Punct('\'', Spacing::Joint, id)),
                leaf_tree(LeafView::Ident(text.subrange(1, text.len() as int), TokenId((st.next_id + 1) as u32))),
            ],
        )
    } else {
        st
    }
}

/// The tokens of `ts` from `pos` on taken into the state.
pub open spec fn run(st: ConvState, ts: Seq<TokenView>, pos: int) -> ConvState
    decreases ts.len() - pos,
{
    if pos < 0 || pos >= ts.len() {
        st
    } else {
        run(step(st, ts, pos), ts, pos + 1)
    }
}

/// End of stream: each subtree still open gives up its pair, its opener
/// becomes an alone punct under a fresh id, and its trees follow it in the
/// enclosing subtree.
pub open spec fn flush(st: ConvState) -> ConvState
    decreases st.frames.len(),
{
    if st.frames.len() <= 1 {
        st
    } else {
        let top = st.frames.last();
        let id = TokenId(st.next_id);
        let frames = st.frames.drop_last();
        let parent = frames.last();
        let opener = match top.delim {
            Some(d) => d.kind.spec_open_char(),
            None => '(',
        };
        flush(
            ConvState {
                frames: frames.update(
                    frames.len() - 1,
                    FrameView {
                        children: parent.children.push(leaf_tree(LeafView::Punct(opener, Spacing::Alone, id)))
                            + top.children,
                        ..parent
                    },
                ),
                next_id: (st.next_id + 1) as u32,
                entries: st.entries.remove(top.idx as int).push(
                    (id, TokenTextRange::Token(top.open.shifted(st.offset))),
                ),
                ..st
            },
        )
    }
}

/// The whole conversion of `ts` from the state `st`.
pub open spec fn conversion(st: ConvState, ts: Seq<TokenView>) -> ConvState {
    flush(run(st, ts, 0))
}

/// The tree a finished state stands for: the root, or its only child when
/// that is a subtree.
pub open spec fn result_tree(st: ConvState) -> TreeView {
    let root = st.frames[0].children;
    if root.len() == 1 && root[0] is Node {
        root[0]
    } else {
        TreeView::Node(None, root)
    }
}

struct StackEntry {
    subtree: Subtree,
    idx: usize,
    open_range: TextRange,
}

proof fn lemma_push_wf(ts: Seq<TokenTree>, t: TokenTree)
    requires
        trees_wf(ts),
        tree_wf(t),
    ensures
        trees_wf(ts.push(t)),
{
    assert forall|i: int| 0 <= i < ts.push(t).len() implies #[trigger] tree_wf(ts.push(t)[i]) by {
        if i < ts.len() {
            assert(tree_wf(ts[i]));
        }
    }
}

proof fn lemma_concat_wf(a: Seq<TokenTree>, b: Seq<TokenTree>)
    requires
        trees_wf(a),
        trees_wf(b),
    ensures
        trees_wf(a + b),
{
    assert forall|i: int| 0 <= i < (a + b).len() implies #[trigger] tree_wf((a + b)[i]) by {
        if i < a.len() {
            assert(tree_wf(a[i]));
        } else {
            assert(tree_wf(b[i - a.len()]));
        }
    }
}

/// The entry opens a delimited subtree whose pair sits in slot `idx` of
/// `entries`.
spec fn open_entry_wf(e: StackEntry, entries: Seq<(crate::tt::TokenId, TokenTextRange)>, global_offset: u32) -> bool {
    &&& e.subtree.delimiter is Some
    &&& e.idx < entries.len()
    &&& entries[e.idx as int].1 is Delimiter
    &&& e.open_range.wf()
    &&& global_offset <= e.open_range.start
}

/// The enclosing subtrees: the root first, then open delimited subtrees with
/// increasing slots, all below the slot of `cur`.
spec fn stack_wf(
    stack: Seq<StackEntry>,
    cur: StackEntry,
    entries: Seq<(crate::tt::TokenId, TokenTextRange)>,
    global_offset: u32,
) -> bool {
    &&& subtree_wf(cur.subtree)
    &&& stack.len() == 0 <==> cur.subtree.delimiter is None
    &&& stack.len() > 0 ==> open_entry_wf(cur, entries, global_offset)
    &&& stack.len() > 0 ==> stack[0].subtree.delimiter is None
    &&& forall|k: int| 0 <= k < stack.len() ==> #[trigger] subtree_wf(stack[k].subtree)
    &&& forall|k: int|
        1 <= k < stack.len() ==> #[trigger] open_entry_wf(stack[k], entries, global_offset)
            && stack[k].idx < cur.idx
    &&& forall|k: int, l: int| 1 <= k < l < stack.len() ==> stack[k].idx < stack[l].idx
}

proof fn lemma_entries_grown(
    stack: Seq<StackEntry>,
    cur: StackEntry,
    old_entries: Seq<(crate::tt::TokenId, TokenTextRange)>,
    new_entries: Seq<(crate::tt::TokenId, TokenTextRange)>,
    offset: u32,
)
    requires
        stack_wf(stack, cur, old_entries, offset),
        old_entries.len() <= new_entries.len(),
        forall|i: int|
            0 <= i < old_entries.len() ==> (old_entries[i].1 is Delimiter ==> new_entries[i].1 is Delimiter),
    ensures
        stack_wf(stack, cur, new_entries, offset),
{
    assert forall|k: int| 1 <= k < stack.len() implies #[trigger] open_entry_wf(stack[k], new_entries, offset) && stack[k].idx < cur.idx by {
        assert(open_entry_wf(stack[k], old_entries, offset));
    }
}

proof fn lemma_entries_below(
    stack: Seq<StackEntry>,
    cur: StackEntry,
    old_entries: Seq<(crate::tt::TokenId, TokenTextRange)>,
    new_entries: Seq<(crate::tt::TokenId, TokenTextRange)>,
    offset: u32,
)
    requires
        stack_wf(stack, cur, old_entries, offset),
        forall|i: int| 0 <= i < cur.idx ==> i < new_entries.len() && new_entries[i] == old_entries[i],
    ensures
        forall|k: int| 1 <= k < stack.len() ==> #[trigger] open_entry_wf(stack[k], new_entries, offset),
{
    assert forall|k: int| 1 <= k < stack.len() implies #[trigger] open_entry_wf(stack[k], new_entries, offset) by {
        assert(open_entry_wf(stack[k], old_entries, offset));
    }
}

proof fn lemma_pop(
    stack: Seq<StackEntry>,
    parent: StackEntry,
    entries: Seq<(crate::tt::TokenId, TokenTextRange)>,
    offset: u32,
)
    requires
        stack.len() > 0,
        stack[0].subtree.delimiter is None,
        forall|k: int| 0 <= k < stack.len() ==> #[trigger] subtree_wf(stack[k].subtree),
        forall|k: int| 1 <= k < stack.len() ==> #[trigger] open_entry_wf(stack[k], entries, offset),
        forall|k: int, l: int| 1 <= k < l < stack.len() ==> stack[k].idx < stack[l].idx,
        parent.idx == stack.last().idx,
        parent.open_range == stack.last().open_range,
        parent.subtree.delimiter == stack.last().subtree.delimiter,
        subtree_wf(parent.subtree),
    ensures
        stack_wf(stack.drop_last(), parent, entries, offset),
{
    let k = stack.len() - 1;
    if k >= 1 {
        assert(open_entry_wf(stack[k], entries, offset));
    }
    let st = stack.drop_last();
    assert forall|j: int| 0 <= j < st.len() implies #[trigger] subtree_wf(st[j].subtree) by {
        assert(subtree_wf(stack[j].subtree));
    }
    assert forall|j: int| 1 <= j < st.len() implies #[trigger] open_entry_wf(st[j], entries, offset) && st[j].idx < parent.idx by {
        assert(open_entry_wf(stack[j], entries, offset));
    }
}

proof fn lemma_push(
    stack: Seq<StackEntry>,
    cur: StackEntry,
    new_cur: StackEntry,
    entries: Seq<(crate::tt::TokenId, TokenTextRange)>,
    offset: u32,
)
    requires
        stack_wf(stack, cur, entries, offset),
        subtree_wf(new_cur.subtree),
        open_entry_wf(new_cur, entries, offset),
        stack.len() > 0 ==> cur.idx < new_cur.idx,
        forall|k: int| 1 <= k < stack.len() ==> stack[k].idx < new_cur.idx,
    ensures
        stack_wf(stack.push(cur), new_cur, entries, offset),
{
    let st = stack.push(cur);
    assert forall|j: int| 0 <= j < st.len() implies #[trigger] subtree_wf(st[j].subtree) by {
        if j < stack.len() {
            assert(subtree_wf(stack[j].subtree));
        }
    }
    assert forall|j: int| 1 <= j < st.len() implies #[trigger] open_entry_wf(st[j], entries, offset) && st[j].idx < new_cur.idx by {
        if j < stack.len() {
            assert(open_entry_wf(stack[j], entries, offset));
        }
    }
    assert forall|k: int, l: int| 1 <= k < l < st.len() implies st[k].idx < st[l].idx by {
        if l < stack.len() {
        } else {
            assert(open_entry_wf(stack[k], entries, offset) && stack[k].idx < cur.idx);
        }
    }
}

/// The openers of the subtrees still open end at or before `limit`.
spec fn opens_within(stack: Seq<StackEntry>, cur: StackEntry, limit: int) -> bool {
    &&& stack.len() > 0 ==> cur.open_range.end <= limit
    &&& forall|k: int| 1 <= k < stack.len() ==> (#[trigger] stack[k]).open_range.end <= limit
}

/// The map records, for each open subtree, its opener as the first end of
/// its pair.
spec fn opens_recorded(
    stack: Seq<StackEntry>,
    cur: StackEntry,
    entries: Seq<(crate::tt::TokenId, TokenTextRange)>,
    offset: u32,
) -> bool {
    &&& stack.len() > 0 ==> entries[cur.idx as int].1->open == cur.open_range.shifted(offset)
    &&& forall|k: int|
        1 <= k < stack.len() ==> entries[(#[trigger] stack[k]).idx as int].1->open
            == stack[k].open_range.shifted(offset)
}

/// The openers of the open subtrees end before any token from `pos` on
/// starts.
spec fn opens_before(stack: Seq<StackEntry>, cur: StackEntry, ts: Seq<SourceToken>, pos: int) -> bool {
    forall|j: int|
        pos <= j < ts.len() ==> (stack.len() > 0 ==> cur.open_range.end <= (#[trigger] ts[j]).range.start)
            && forall|k: int| 1 <= k < stack.len() ==> (#[trigger] stack[k]).open_range.end <= ts[j].range.start
}

proof fn lemma_recorded_kept(
    stack: Seq<StackEntry>,
    cur: StackEntry,
    e0: Seq<(crate::tt::TokenId, TokenTextRange)>,
    e1: Seq<(crate::tt::TokenId, TokenTextRange)>,
    offset: u32,
)
    requires
        stack_wf(stack, cur, e0, offset),
        opens_recorded(stack, cur, e0, offset),
        e0.len() <= e1.len(),
        forall|i: int| 0 <= i < e0.len() ==> e1[i] == e0[i],
    ensures
        opens_recorded(stack, cur, e1, offset),
{
    assert forall|k: int| 1 <= k < stack.len() implies e1[(#[trigger] stack[k]).idx as int].1->open
        == stack[k].open_range.shifted(offset) by {
        assert(open_entry_wf(stack[k], e0, offset));
        assert(stack[k].idx < cur.idx);
    }
}

proof fn lemma_recorded_pop(
    stack: Seq<StackEntry>,
    cur: StackEntry,
    parent: StackEntry,
    e0: Seq<(crate::tt::TokenId, TokenTextRange)>,
    e1: Seq<(crate::tt::TokenId, TokenTextRange)>,
    offset: u32,
)
    requires
        stack.len() > 0,
        stack_wf(stack, cur, e0, offset),
        opens_recorded(stack, cur, e0, offset),
        forall|i: int| 0 <= i < cur.idx ==> i < e1.len() && e1[i] == e0[i],
        parent.idx == stack.last().idx,
        parent.open_range == stack.last().open_range,
    ensures
        opens_recorded(stack.drop_last(), parent, e1, offset),
{
    let st = stack.drop_last();
    let k0 = stack.len() - 1;
    if k0 >= 1 {
        assert(open_entry_wf(stack[k0], e0, offset));
        assert(stack[k0].idx < cur.idx);
        assert(stack[k0] == stack.last());
    }
    assert forall|k: int| 1 <= k < st.len() implies e1[(#[trigger] st[k]).idx as int].1->open
        == st[k].open_range.shifted(offset) by {
        assert(st[k] == stack[k]);
        assert(open_entry_wf(stack[k], e0, offset));
        assert(stack[k].idx < cur.idx);
    }
}

proof fn lemma_before_pop(
    stack: Seq<StackEntry>,
    cur: StackEntry,
    parent: StackEntry,
    ts: Seq<SourceToken>,
    pos: int,
)
    requires
        stack.len() > 0,
        opens_before(stack, cur, ts, pos),
        parent.open_range == stack.last().open_range,
        stack[0].subtree.delimiter is None,
    ensures
        opens_before(stack.drop_last(), parent, ts, pos),
{
    let st = stack.drop_last();
    assert forall|j: int| pos <= j < ts.len() implies (st.len() > 0 ==> parent.open_range.end <= (#[trigger] ts[j]).range.start)
        && forall|k: int| 1 <= k < st.len() ==> (#[trigger] st[k]).open_range.end <= ts[j].range.start by {
        if st.len() > 0 {
            assert(stack[stack.len() - 1].open_range.end <= ts[j].range.start);
        }
        assert forall|k: int| 1 <= k < st.len() implies (#[trigger] st[k]).open_range.end <= ts[j].range.start by {
            assert(stack[k].open_range.end <= ts[j].range.start);
        }
    }
}

proof fn lemma_push_recorded(
    stack: Seq<StackEntry>,
    cur: StackEntry,
    new_cur: StackEntry,
    entries: Seq<(crate::tt::TokenId, TokenTextRange)>,
    ts: Seq<SourceToken>,
    pos: int,
    offset: u32,
)
    requires
        opens_recorded(stack, cur, entries, offset),
        entries[new_cur.idx as int].1->open == new_cur.open_range.shifted(offset),
        opens_before(stack, cur, ts, pos),
        0 <= pos < ts.len(),
        new_cur.open_range == ts[pos].range,
        tokens_ordered(ts),
    ensures
        opens_recorded(stack.push(cur), new_cur, entries, offset),
        opens_before(stack.push(cur), new_cur, ts, pos + 1),
{
    let st = stack.push(cur);
    assert forall|k: int| 1 <= k < st.len() implies entries[(#[trigger] st[k]).idx as int].1->open
        == st[k].open_range.shifted(offset) by {
        if k < stack.len() {
            assert(st[k] == stack[k]);
        }
    }
    assert forall|j: int| pos + 1 <= j < ts.len() implies (st.len() > 0 ==> new_cur.open_range.end <= (#[trigger] ts[j]).range.start)
        && forall|k: int| 1 <= k < st.len() ==> (#[trigger] st[k]).open_range.end <= ts[j].range.start by {
        assert(ts[pos].range.end <= ts[j].range.start);
        assert forall|k: int| 1 <= k < st.len() implies (#[trigger] st[k]).open_range.end <= ts[j].range.start by {
            if k < stack.len() {
                assert(st[k] == stack[k]);
                assert(stack[k].open_range.end <= ts[j].range.start);
            }
        }
    }
}

proof fn lemma_cur_grown(
    stack: Seq<StackEntry>,
    cur: StackEntry,
    new_cur: StackEntry,
    entries: Seq<(crate::tt::TokenId, TokenTextRange)>,
    offset: u32,
)
    requires
        stack_wf(stack, cur, entries, offset),
        subtree_wf(new_cur.subtree),
        new_cur.idx == cur.idx,
        new_cur.open_range == cur.open_range,
        new_cur.subtree.delimiter == cur.subtree.delimiter,
    ensures
        stack_wf(stack, new_cur, entries, offset),
{
}

spec fn frame_view(e: StackEntry) -> FrameView {
    FrameView {
        delim: e.subtree.delimiter,
        children: trees_view(e.subtree.token_trees@),
        idx: e.idx,
        open: e.open_range,
    }
}

spec fn frames_of(stack: Seq<StackEntry>, cur: StackEntry) -> Seq<FrameView> {
    stack.map_values(|e: StackEntry| frame_view(e)).push(frame_view(cur))
}

/// The state that the running conversion stands for.
spec fn state_of(stack: Seq<StackEntry>, cur: StackEntry, a: TokenIdAlloc) -> ConvState {
    ConvState {
        frames: frames_of(stack, cur),
        next_id: a.next_id,
        entries: a.map.entries@,
        synthetic: a.map.synthetic_entries@,
        offset: a.global_offset,
    }
}

proof fn lemma_trees_view_concat(a: Seq<TokenTree>, b: Seq<TokenTree>)
    ensures
        trees_view(a + b) == trees_view(a) + trees_view(b),
{
    assert(trees_view(a + b) =~= trees_view(a) + trees_view(b));
}

proof fn lemma_add_view(
    stack: Seq<StackEntry>,
    cur: StackEntry,
    cur2: StackEntry,
    cs: Seq<TokenTree>,
    st: ConvState,
)
    requires
        st.frames == frames_of(stack, cur),
        cur2.subtree.token_trees@ == cur.subtree.token_trees@ + cs,
        cur2.subtree.delimiter == cur.subtree.delimiter,
        cur2.idx == cur.idx,
        cur2.open_range == cur.open_range,
    ensures
        frames_of(stack, cur2) == add_children(st, trees_view(cs)).frames,
{
    lemma_trees_view_concat(cur.subtree.token_trees@, cs);
    assert(frames_of(stack, cur2) =~= add_children(st, trees_view(cs)).frames);
}

proof fn lemma_push_frame_view(stack: Seq<StackEntry>, cur: StackEntry, new_cur: StackEntry)
    ensures
        frames_of(stack.push(cur), new_cur) == frames_of(stack, cur).push(frame_view(new_cur)),
{
    assert(frames_of(stack.push(cur), new_cur) =~= frames_of(stack, cur).push(frame_view(new_cur)));
}

proof fn lemma_pop_frame_view(stack: Seq<StackEntry>, cur: StackEntry, parent2: StackEntry, cs: Seq<TokenTree>)
    requires
        stack.len() > 0,
        parent2.subtree.token_trees@ == stack.last().subtree.token_trees@ + cs,
        parent2.subtree.delimiter == stack.last().subtree.delimiter,
        parent2.idx == stack.last().idx,
        parent2.open_range == stack.last().open_range,
    ensures
        ({
            let frames = frames_of(stack, cur).drop_last();
            let parent = frames.last();
            frames_of(stack.drop_last(), parent2) == frames.update(
                frames.len() - 1,
                FrameView { children: parent.children + trees_view(cs), ..parent },
            )
        }),
{
    let frames = frames_of(stack, cur).drop_last();
    lemma_trees_view_concat(stack.last().subtree.token_trees@, cs);
    assert(frames_of(stack.drop_last(), parent2) =~= frames.update(
        frames.len() - 1,
        FrameView { children: frames.last().children + trees_view(cs), ..frames.last() },
    ));
}

/// The map's earlier entries `base` are kept as they were, and every entry
/// after them has an id from `start` on.
pub open spec fn keeps_prefix<T>(es: Seq<(TokenId, T)>, base: Seq<(TokenId, T)>, start: u32) -> bool {
    &&& base.len() <= es.len()
    &&& forall|k: int| 0 <= k < base.len() ==> es[k] == base[k]
    &&& forall|k: int| base.len() <= k < es.len() ==> es[k].0.0 >= start
}

/// The slots of the open pairs lie past `base_len`.
spec fn opens_above(stack: Seq<StackEntry>, cur: StackEntry, base_len: int) -> bool {
    &&& stack.len() > 0 ==> cur.idx >= base_len
    &&& forall|k: int| 1 <= k < stack.len() ==> (#[trigger] stack[k]).idx >= base_len
}

proof fn lemma_prefix_push<T>(e0: Seq<(TokenId, T)>, e1: Seq<(TokenId, T)>, base: Seq<(TokenId, T)>, start: u32)
    requires
        keeps_prefix(e0, base, start),
        e1.len() == e0.len() + 1,
        forall|k: int| 0 <= k < e0.len() ==> e1[k] == e0[k],
        e1[e0.len() as int].0.0 >= start,
    ensures
        keeps_prefix(e1, base, start),
{
}

proof fn lemma_prefix_update<T>(
    e0: Seq<(TokenId, T)>,
    e1: Seq<(TokenId, T)>,
    base: Seq<(TokenId, T)>,
    start: u32,
    idx: int,
)
    requires
        keeps_prefix(e0, base, start),
        base.len() <= idx < e0.len(),
        e1.len() == e0.len(),
        forall|k: int| 0 <= k < e0.len() && k != idx ==> e1[k] == e0[k],
        e1[idx].0 == e0[idx].0,
    ensures
        keeps_prefix(e1, base, start),
{
}

proof fn lemma_prefix_remove<T>(e0: Seq<(TokenId, T)>, base: Seq<(TokenId, T)>, start: u32, idx: int)
    requires
        keeps_prefix(e0, base, start),
        base.len() <= idx < e0.len(),
    ensures
        keeps_prefix(e0.remove(idx), base, start),
{
    let e1 = e0.remove(idx);
    assert forall|k: int| base.len() <= k < e1.len() implies e1[k].0.0 >= start by {
        if k < idx {
            assert(e1[k] == e0[k]);
        } else {
            assert(e1[k] == e0[k + 1]);
        }
    }
    assert forall|k: int| 0 <= k < base.len() implies e1[k] == base[k] by {
        assert(e1[k] == e0[k]);
    }
}

proof fn lemma_synthetic_kept(
    s0: Seq<(TokenId, SyntheticTokenId)>,
    s1: Seq<(TokenId, SyntheticTokenId)>,
    base: Seq<(TokenId, SyntheticTokenId)>,
    start: u32,
    id: TokenId,
    synth: Option<SyntheticTokenId>,
)
    requires
        keeps_prefix(s0, base, start),
        id.0 >= start,
        s1 == (match synth {
            Some(t) => s0.push((id, t)),
            None => s0,
        }),
    ensures
        keeps_prefix(s1, base, start),
{
}

/// Groups the token stream `tokens` into one token tree, recording an id for
/// each leaf and delimiter in `id_alloc`. Unclosed delimiters are demoted to
/// plain puncts at the end; a closer that matches no open delimiter is a
/// plain punct. When the whole stream is one delimited subtree, that subtree
/// is returned.
///
/// When every token ends by `limit` and so does every range already in the
/// map, every range in the map ends by `limit` afterwards too (ranges taken
/// relative to the global offset). When the tokens come in order and every
/// pair in the map opens before it closes (or is still open), so does every
/// pair afterwards.
#[verifier::spinoff_prover]
#[verifier::rlimit(60)]
pub fn convert_tokens(
    tokens: &Vec<SourceToken>,
    id_alloc: &mut TokenIdAlloc,
    Ghost(limit): Ghost<int>,
) -> (r: Subtree)
    requires
        old(id_alloc).wf(),
        source_wf(tokens@, old(id_alloc).global_offset),
        old(id_alloc).next_id + 2 * tokens@.len() <= u32::MAX,
    ensures
        final(id_alloc).wf(),
        final(id_alloc).global_offset == old(id_alloc).global_offset,
        old(id_alloc).next_id <= final(id_alloc).next_id,
        final(id_alloc).next_id <= old(id_alloc).next_id + 2 * tokens@.len(),
        subtree_wf(r),
        keeps_prefix(final(id_alloc).map.entries@, old(id_alloc).map.entries@, old(id_alloc).next_id),
        keeps_prefix(
            final(id_alloc).map.synthetic_entries@,
            old(id_alloc).map.synthetic_entries@,
            old(id_alloc).next_id,
        ),
        ({
            let fin = conversion(
                init_state(
                    old(id_alloc).global_offset,
                    old(id_alloc).next_id,
                    old(id_alloc).map.entries@,
                    old(id_alloc).map.synthetic_entries@,
                ),
                views(tokens@),
            );
            &&& subtree_view(r) == result_tree(fin)
            &&& final(id_alloc).next_id == fin.next_id
            &&& final(id_alloc).map.entries@ == fin.entries
            &&& final(id_alloc).map.synthetic_entries@ == fin.synthetic
        }),
        tokens_within(tokens@, limit) && entries_within(
            old(id_alloc).map.entries@,
            limit - old(id_alloc).global_offset,
        ) ==> entries_within(final(id_alloc).map.entries@, limit - old(id_alloc).global_offset),
        tokens_ordered(tokens@) && pairs_ok(old(id_alloc).map.entries@) ==> pairs_ok(
            final(id_alloc).map.entries@,
        ),
{
    let ghost start_id = id_alloc.next_id;
    let ghost offset = id_alloc.global_offset;
    let ghost lim = limit - offset;
    let ghost p = tokens_within(tokens@, limit) && entries_within(id_alloc.map.entries@, lim);
    let ghost q = tokens_ordered(tokens@) && pairs_ok(id_alloc.map.entries@);
    let ghost base_e = id_alloc.map.entries@;
    let ghost base_s = id_alloc.map.synthetic_entries@;
    let mut stack: Vec<StackEntry> = Vec::new();
    let mut cur = StackEntry {
        subtree: Subtree { delimiter: None, token_trees: Vec::new() },
        idx: 0,
        open_range: TextRange { start: 0, end: 0 },
    };
    let n = tokens.len();
    let mut pos: usize = 0;
    let ghost ts = views(tokens@);
    let ghost s0 = init_state(offset, start_id, id_alloc.map.entries@, id_alloc.map.synthetic_entries@);
    proof {
        assert(trees_view(cur.subtree.token_trees@) =~= seq![]);
        assert(state_of(stack@, cur, *id_alloc).frames =~= s0.frames);
    }
    while pos < n
        invariant
            n == tokens@.len(),
            ts == views(tokens@),
            run(state_of(stack@, cur, *id_alloc), ts, pos as int) == run(s0, ts, 0),
            pos <= n,
            source_wf(tokens@, offset),
            id_alloc.wf(),
            id_alloc.global_offset == offset,
            start_id <= id_alloc.next_id,
            id_alloc.next_id + stack@.len() <= start_id + 2 * pos,
            id_alloc.next_id + 2 * (n - pos) + stack@.len() <= u32::MAX,
            stack_wf(stack@, cur, id_alloc.map.entries@, offset),
            keeps_prefix(id_alloc.map.entries@, base_e, start_id),
            keeps_prefix(id_alloc.map.synthetic_entries@, base_s, start_id),
            opens_above(stack@, cur, base_e.len() as int),
            p ==> tokens_within(tokens@, limit),
            p ==> entries_within(id_alloc.map.entries@, lim),
            p ==> opens_within(stack@, cur, limit),
            lim == limit - offset,
            q ==> tokens_ordered(tokens@),
            q ==> pairs_ok(id_alloc.map.entries@),
            q ==> opens_recorded(stack@, cur, id_alloc.map.entries@, offset),
            q ==> opens_before(stack@, cur, tokens@, pos as int),
        decreases n - pos,
    {
        let token = &tokens[pos];
        let ghost pos0 = pos as int;
        let ghost sb = state_of(stack@, cur, *id_alloc);
        let ghost cb = cur;
        let ghost stb = stack@;
        proof {
            assert(ts[pos0] == source_view(tokens@[pos0]));
            if pos0 + 1 < n {
                assert(ts[pos0 + 1] == source_view(tokens@[pos0 + 1]));
            }
        }
        assert(source_token_wf(tokens@[pos as int], offset));
        proof {
            if p {
                assert(tokens@[pos as int].range.end <= limit);
            }
        }
        pos = pos + 1;
        let range = token.range;
        let synth_id = token.synthetic_id;
        let kind = token.kind;
        if kind == SyntaxKind::Comment {
            if synth_id.is_none() && crate::doc_comment::comment_doc_kind(token.text.as_str()).is_some() {
                let ghost e0 = id_alloc.map.entries@;
                let ghost e0_s = id_alloc.map.synthetic_entries@;
                let id = id_alloc.alloc_id(range, synth_id);
                proof {
                    lemma_prefix_push(e0, id_alloc.map.entries@, base_e, start_id);
                    lemma_synthetic_kept(e0_s, id_alloc.map.synthetic_entries@, base_s, start_id, id, synth_id);
                }
                proof {
                    lemma_entries_grown(stack@, cur, e0, id_alloc.map.entries@, offset);
                    if p {
                        lemma_within_changed(e0, id_alloc.map.entries@, e0.len() as int, lim);
                    }
                    if q {
                        lemma_pairs_changed(e0, id_alloc.map.entries@, e0.len() as int);
                        lemma_recorded_kept(stack@, cur, e0, id_alloc.map.entries@, offset);
                    }
                }
                let doc = convert_doc_comment(token.text.as_str(), id);
                if let Some(mut v) = doc {
                    proof {
                        lemma_concat_wf(cur.subtree.token_trees@, v@);
                    }
                    let ghost c0 = cur;
                    let ghost v0 = v@;
                    cur.subtree.token_trees.append(&mut v);
                    proof {
                        lemma_cur_grown(stack@, c0, cur, id_alloc.map.entries@, offset);
                        lemma_add_view(stack@, c0, cur, v0, alloc_state(sb, range, synth_id));
                        assert(state_of(stack@, cur, *id_alloc) == step(sb, ts, pos0));
                    }
                }
            }
        } else if kind == SyntaxKind::Punct {
            let c = token.text.as_str().get_char(0);
            let closes = match cur.subtree.delimiter {
                Some(d) => c == d.kind.close_char(),
                None => false,
            };
            if closes {
                let ghost e0 = id_alloc.map.entries@;
                id_alloc.close_delim(cur.idx, Some(range));
                proof {
                    lemma_prefix_update(e0, id_alloc.map.entries@, base_e, start_id, cur.idx as int);
                }
                proof {
                    lemma_entries_grown(stack@, cur, e0, id_alloc.map.entries@, offset);
                    assert(subtree_wf(stack@[stack@.len() - 1].subtree));
                    if p {
                        assert(range_ends_by(e0[cur.idx as int].1, lim));
                        lemma_within_changed(e0, id_alloc.map.entries@, cur.idx as int, lim);
                    }
                    if q {
                        assert(cur.open_range.end <= tokens@[pos - 1].range.start);
                        assert(pair_ok(id_alloc.map.entries@[cur.idx as int].1));
                        lemma_pairs_changed(e0, id_alloc.map.entries@, cur.idx as int);
                    }
                }
                let done = cur;
                let ghost st = stack@;
                proof {
                    assert forall|k: int| 1 <= k < st.len() implies #[trigger] open_entry_wf(st[k], id_alloc.map.entries@, offset) by {
                        assert(stack_wf(st, done, id_alloc.map.entries@, offset));
                        assert(open_entry_wf(st[k], id_alloc.map.entries@, offset));
                    }
                }
                let mut parent = stack.pop().unwrap();
                proof {
                    crate::tt::lemma_subtree_wf(done.subtree);
                    lemma_push_wf(parent.subtree.token_trees@, TokenTree::Subtree(done.subtree));
                }
                let ghost p0 = parent;
                parent.subtree.token_trees.push(TokenTree::Subtree(done.subtree));
                proof {
                    lemma_subtree_view(done.subtree);
                    assert(parent.subtree.token_trees@ =~= p0.subtree.token_trees@ + seq![TokenTree::Subtree(done.subtree)]);
                    assert(trees_view(seq![TokenTree::Subtree(done.subtree)]) =~= seq![TreeView::Node(done.subtree.delimiter, trees_view(done.subtree.token_trees@))]);
                    lemma_pop_frame_view(st, done, parent, seq![TokenTree::Subtree(done.subtree)]);
                    lemma_pop(st, parent, id_alloc.map.entries@, offset);
                    if q {
                        lemma_recorded_pop(st, done, parent, e0, id_alloc.map.entries@, offset);
                        lemma_before_pop(st, done, parent, tokens@, pos as int);
                    }
                }
                cur = parent;
                proof {
                    let frames = sb.frames.drop_last();
                    let par = frames.last();
                    let node = TreeView::Node(done.subtree.delimiter, trees_view(done.subtree.token_trees@));
                    assert(sb.frames.last() == frame_view(done));
                    assert(par.children + seq![node] =~= par.children.push(node));
                    assert(state_of(stack@, cur, *id_alloc).frames == frames.update(
                        frames.len() - 1,
                        FrameView { children: par.children.push(node), ..par },
                    ));
                    assert(state_of(stack@, cur, *id_alloc) == step(sb, ts, pos0));
                }
            } else {
                match delim_kind_of(c) {
                    Some(dk) => {
                        let ghost e0 = id_alloc.map.entries@;
                        let (id, idx) = id_alloc.open_delim(range);
                        proof {
                            lemma_prefix_push(e0, id_alloc.map.entries@, base_e, start_id);
                        }
                        proof {
                            lemma_entries_grown(stack@, cur, e0, id_alloc.map.entries@, offset);
                        }
                        let new_cur = StackEntry {
                            subtree: Subtree {
                                delimiter: Some(Delimiter { id, kind: dk }),
                                token_trees: Vec::new(),
                            },
                            idx,
                            open_range: range,
                        };
                        proof {
                            assert forall|k: int| 1 <= k < stack@.len() implies stack@[k].idx < new_cur.idx by {
                                assert(open_entry_wf(stack@[k], e0, offset));
                            }
                            lemma_push(stack@, cur, new_cur, id_alloc.map.entries@, offset);
                            if q {
                                lemma_pairs_changed(e0, id_alloc.map.entries@, e0.len() as int);
                                lemma_recorded_kept(stack@, cur, e0, id_alloc.map.entries@, offset);
                                lemma_push_recorded(stack@, cur, new_cur, id_alloc.map.entries@, tokens@, pos - 1, offset);
                            }
                        }
                        proof {
                            lemma_push_frame_view(stack@, cur, new_cur);
                            assert(trees_view(new_cur.subtree.token_trees@) =~= seq![]);
                        }
                        stack.push(cur);
                        cur = new_cur;
                        proof {
                            assert(state_of(stack@, cur, *id_alloc) == step(sb, ts, pos0));
                        }
                        },
                    None => {
                        if pos < n {
                            assert(source_token_wf(tokens@[pos as int], offset));
                        }
                        let spacing = spacing_for(
                            if pos < n {
                                Some(&tokens[pos])
                            } else {
                                None
                            },
                        );
                        let ghost e0 = id_alloc.map.entries@;
                        let ghost e0_s = id_alloc.map.synthetic_entries@;
                        let id = id_alloc.alloc_id(range, synth_id);
                        proof {
                            lemma_prefix_push(e0, id_alloc.map.entries@, base_e, start_id);
                            lemma_synthetic_kept(e0_s, id_alloc.map.synthetic_entries@, base_s, start_id, id, synth_id);
                        }
                        proof {
                            lemma_entries_grown(stack@, cur, e0, id_alloc.map.entries@, offset);
                            if q {
                                lemma_pairs_changed(e0, id_alloc.map.entries@, e0.len() as int);
                                lemma_recorded_kept(stack@, cur, e0, id_alloc.map.entries@, offset);
                            }
                        }
                        let leaf = TokenTree::Leaf(Leaf::Punct(Punct { char: c, spacing, id }));
                        proof {
                            lemma_push_wf(cur.subtree.token_trees@, leaf);
                        }
                        let ghost c0 = cur;
                        cur.subtree.token_trees.push(leaf);
                        proof {
                            lemma_cur_grown(stack@, c0, cur, id_alloc.map.entries@, offset);
                            assert(cur.subtree.token_trees@ =~= c0.subtree.token_trees@ + seq![leaf]);
                            assert(trees_view(seq![leaf]) =~= seq![tree_view(leaf)]);
                            lemma_add_view(stack@, c0, cur, seq![leaf], alloc_state(sb, range, synth_id));
                            assert(state_of(stack@, cur, *id_alloc) == step(sb, ts, pos0));
                        }
                        },
                }
            }
        } else if kind == SyntaxKind::Ident || kind == SyntaxKind::Keyword || kind
            == SyntaxKind::Underscore {
            let ghost e0 = id_alloc.map.entries@;
            let ghost e0_s = id_alloc.map.synthetic_entries@;
            let id = id_alloc.alloc_id(range, synth_id);
            proof {
                lemma_prefix_push(e0, id_alloc.map.entries@, base_e, start_id);
                lemma_synthetic_kept(e0_s, id_alloc.map.synthetic_entries@, base_s, start_id, id, synth_id);
            }
            proof {
                lemma_entries_grown(stack@, cur, e0, id_alloc.map.entries@, offset);
                if p {
                    lemma_within_changed(e0, id_alloc.map.entries@, e0.len() as int, lim);
                }
                if q {
                    lemma_pairs_changed(e0, id_alloc.map.entries@, e0.len() as int);
                    lemma_recorded_kept(stack@, cur, e0, id_alloc.map.entries@, offset);
                }
            }
            let leaf = TokenTree::Leaf(Leaf::Ident(Ident { text: token.text.clone(), id }));
            proof {
                lemma_push_wf(cur.subtree.token_trees@, leaf);
            }
            let ghost c0 = cur;
            cur.subtree.token_trees.push(leaf);
            proof {
                lemma_cur_grown(stack@, c0, cur, id_alloc.map.entries@, offset);
                assert(cur.subtree.token_trees@ =~= c0.subtree.token_trees@ + seq![leaf]);
                assert(trees_view(seq![leaf]) =~= seq![tree_view(leaf)]);
                lemma_add_view(stack@, c0, cur, seq![leaf], alloc_state(sb, range, synth_id));
                assert(state_of(stack@, cur, *id_alloc) == step(sb, ts, pos0));
            }
        } else if kind == SyntaxKind::Literal {
            let ghost e0 = id_alloc.map.entries@;
            let ghost e0_s = id_alloc.map.synthetic_entries@;
            let id = id_alloc.alloc_id(range, synth_id);
            proof {
                lemma_prefix_push(e0, id_alloc.map.entries@, base_e, start_id);
                lemma_synthetic_kept(e0_s, id_alloc.map.synthetic_entries@, base_s, start_id, id, synth_id);
            }
            proof {
                lemma_entries_grown(stack@, cur, e0, id_alloc.map.entries@, offset);
                if p {
                    lemma_within_changed(e0, id_alloc.map.entries@, e0.len() as int, lim);
                }
                if q {
                    lemma_pairs_changed(e0, id_alloc.map.entries@, e0.len() as int);
                    lemma_recorded_kept(stack@, cur, e0, id_alloc.map.entries@, offset);
                }
            }
            let leaf = TokenTree::Leaf(Leaf::Literal(Literal { text: token.text.clone(), id }));
            proof {
                lemma_push_wf(cur.subtree.token_trees@, leaf);
            }
            let ghost c0 = cur;
            cur.subtree.token_trees.push(leaf);
            proof {
                lemma_cur_grown(stack@, c0, cur, id_alloc.map.entries@, offset);
                assert(cur.subtree.token_trees@ =~= c0.subtree.token_trees@ + seq![leaf]);
                assert(trees_view(seq![leaf]) =~= seq![tree_view(leaf)]);
                lemma_add_view(stack@, c0, cur, seq![leaf], alloc_state(sb, range, synth_id));
                assert(state_of(stack@, cur, *id_alloc) == step(sb, ts, pos0));
            }
        } else if kind == SyntaxKind::LifetimeIdent {
            let r1 = TextRange::at(range.start, 1);
            let r2 = TextRange::at(range.start + 1, range.end - range.start - 1);
            let ghost e0 = id_alloc.map.entries@;
            let ghost e0_s = id_alloc.map.synthetic_entries@;
            let id1 = id_alloc.alloc_id(r1, synth_id);
            proof {
                lemma_prefix_push(e0, id_alloc.map.entries@, base_e, start_id);
                lemma_synthetic_kept(e0_s, id_alloc.map.synthetic_entries@, base_s, start_id, id1, synth_id);
            }
            proof {
                lemma_entries_grown(stack@, cur, e0, id_alloc.map.entries@, offset);
                if p {
                    lemma_within_changed(e0, id_alloc.map.entries@, e0.len() as int, lim);
                }
                if q {
                    lemma_pairs_changed(e0, id_alloc.map.entries@, e0.len() as int);
                    lemma_recorded_kept(stack@, cur, e0, id_alloc.map.entries@, offset);
                }
            }
            let len = token.text.as_str().unicode_len();
            let name = String::from_str(token.text.as_str().substring_char(1, len));
            let ghost e0 = id_alloc.map.entries@;
            let ghost e0_s = id_alloc.map.synthetic_entries@;
            let id2 = id_alloc.alloc_id(r2, synth_id);
            proof {
                lemma_prefix_push(e0, id_alloc.map.entries@, base_e, start_id);
                lemma_synthetic_kept(e0_s, id_alloc.map.synthetic_entries@, base_s, start_id, id2, synth_id);
            }
            proof {
                lemma_entries_grown(stack@, cur, e0, id_alloc.map.entries@, offset);
                if p {
                    lemma_within_changed(e0, id_alloc.map.entries@, e0.len() as int, lim);
                }
                if q {
                    lemma_pairs_changed(e0, id_alloc.map.entries@, e0.len() as int);
                    lemma_recorded_kept(stack@, cur, e0, id_alloc.map.entries@, offset);
                }
            }
            let apostrophe = TokenTree::Leaf(
                Leaf::Punct(Punct { char: '\'', spacing: Spacing::Joint, id: id1 }),
            );
            proof {
                lemma_push_wf(cur.subtree.token_trees@, apostrophe);
            }
            let ghost c0 = cur;
            cur.subtree.token_trees.push(apostrophe);
            proof {
                lemma_cur_grown(stack@, c0, cur, id_alloc.map.entries@, offset);
            }
            let ident = TokenTree::Leaf(Leaf::Ident(Ident { text: name, id: id2 }));
            proof {
                lemma_push_wf(cur.subtree.token_trees@, ident);
            }
            let ghost c0 = cur;
            cur.subtree.token_trees.push(ident);
            proof {
                lemma_cur_grown(stack@, c0, cur, id_alloc.map.entries@, offset);
                assert(name@ =~= token.text@.subrange(1, token.text@.len() as int));
                assert(cur.subtree.token_trees@ =~= cb.subtree.token_trees@ + seq![apostrophe, ident]);
                assert(trees_view(seq![apostrophe, ident]) =~= seq![tree_view(apostrophe), tree_view(ident)]);
                lemma_add_view(
                    stack@,
                    cb,
                    cur,
                    seq![apostrophe, ident],
                    alloc_state(alloc_state(sb, r1, synth_id), r2, synth_id),
                );
                assert(state_of(stack@, cur, *id_alloc) == step(sb, ts, pos0));
            }
        }
    }
    proof {
        assert(state_of(stack@, cur, *id_alloc) == run(s0, ts, 0));
    }
    while stack.len() > 0
        invariant
            flush(state_of(stack@, cur, *id_alloc)) == conversion(s0, ts),
            id_alloc.wf(),
            id_alloc.global_offset == offset,
            start_id <= id_alloc.next_id,
            id_alloc.next_id + stack@.len() <= start_id + 2 * n,
            id_alloc.next_id + stack@.len() <= u32::MAX,
            stack_wf(stack@, cur, id_alloc.map.entries@, offset),
            keeps_prefix(id_alloc.map.entries@, base_e, start_id),
            keeps_prefix(id_alloc.map.synthetic_entries@, base_s, start_id),
            opens_above(stack@, cur, base_e.len() as int),
            p ==> entries_within(id_alloc.map.entries@, lim),
            p ==> opens_within(stack@, cur, limit),
            lim == limit - offset,
            q ==> pairs_ok(id_alloc.map.entries@),
            q ==> opens_recorded(stack@, cur, id_alloc.map.entries@, offset),
        decreases stack@.len(),
    {
        let ghost sb = state_of(stack@, cur, *id_alloc);
        let ghost e0 = id_alloc.map.entries@;
        id_alloc.close_delim(cur.idx, None);
        proof {
            lemma_prefix_remove(e0, base_e, start_id, cur.idx as int);
        }
        proof {
            lemma_entries_below(stack@, cur, e0, id_alloc.map.entries@, offset);
            assert(subtree_wf(stack@[stack@.len() - 1].subtree));
            if p {
                lemma_within_remove(e0, cur.idx as int, lim);
            }
            if q {
                lemma_pairs_remove(e0, cur.idx as int);
            }
        }
        let done = cur;
        let ghost st = stack@;
        let ghost e1 = id_alloc.map.entries@;
        let mut parent = stack.pop().unwrap();
        let open = match done.subtree.delimiter {
            Some(d) => d.kind.open_char(),
            None => '(',
        };
        let ghost e1 = id_alloc.map.entries@;
        let ghost e1_s = id_alloc.map.synthetic_entries@;
        let id = id_alloc.alloc_id(done.open_range, None);
        proof {
            lemma_prefix_push(e1, id_alloc.map.entries@, base_e, start_id);
            lemma_synthetic_kept(e1_s, id_alloc.map.synthetic_entries@, base_s, start_id, id, None);
        }
        proof {
            if p {
                lemma_within_changed(e1, id_alloc.map.entries@, e1.len() as int, lim);
            }
            if q {
                lemma_pairs_changed(e1, id_alloc.map.entries@, e1.len() as int);
            }
        }
        let leaf = TokenTree::Leaf(Leaf::Punct(Punct { char: open, spacing: Spacing::Alone, id }));
        proof {
            lemma_push_wf(parent.subtree.token_trees@, leaf);
        }
        let ghost p0 = parent;
        parent.subtree.token_trees.push(leaf);
        let mut children = done.subtree.token_trees;
        proof {
            lemma_concat_wf(parent.subtree.token_trees@, children@);
        }
        parent.subtree.token_trees.append(&mut children);
        proof {
            let cs = seq![leaf] + done.subtree.token_trees@;
            assert(parent.subtree.token_trees@ =~= p0.subtree.token_trees@ + cs);
            lemma_trees_view_concat(seq![leaf], done.subtree.token_trees@);
            assert(trees_view(seq![leaf]) =~= seq![tree_view(leaf)]);
            lemma_pop_frame_view(st, done, parent, cs);
            let frames = sb.frames.drop_last();
            let par = frames.last();
            let x = tree_view(leaf);
            assert(sb.frames.last() == frame_view(done));
            assert(par.children + (seq![x] + trees_view(done.subtree.token_trees@)) =~= par.children.push(x)
                + trees_view(done.subtree.token_trees@));
        }
        proof {
            assert forall|k: int| 1 <= k < st.len() implies #[trigger] open_entry_wf(st[k], id_alloc.map.entries@, offset) by {
                assert(open_entry_wf(st[k], e1, offset));
            }
            lemma_pop(st, parent, id_alloc.map.entries@, offset);
            if q {
                lemma_recorded_pop(st, done, parent, e0, id_alloc.map.entries@, offset);
            }
        }
        cur = parent;
        proof {
            let frames = sb.frames.drop_last();
            let par = frames.last();
            assert(state_of(stack@, cur, *id_alloc).frames == frames.update(
                frames.len() - 1,
                FrameView {
                    children: par.children.push(leaf_tree(LeafView::Punct(open, Spacing::Alone, id)))
                        + sb.frames.last().children,
                    ..par
                },
            ));
            assert(flush(sb) == flush(state_of(stack@, cur, *id_alloc)));
        }
    }
    proof {
        assert(state_of(stack@, cur, *id_alloc).frames =~= seq![frame_view(cur)]);
        assert(flush(state_of(stack@, cur, *id_alloc)) == state_of(stack@, cur, *id_alloc));
    }
    let ghost root = trees_view(cur.subtree.token_trees@);
    let mut token_trees = cur.subtree.token_trees;
    if token_trees.len() == 1 {
        assert(tree_wf(token_trees@[0]));
        let only = token_trees.pop().unwrap();
        match only {
            TokenTree::Subtree(s) => {
                proof {
                    crate::tt::lemma_subtree_wf(s);
                    lemma_subtree_view(s);
                }
                return s;
            },
            TokenTree::Leaf(l) => {
                token_trees.push(TokenTree::Leaf(l));
            },
        }
    }
    proof {
        assert(trees_view(token_trees@) =~= root);
    }
    Subtree { delimiter: None, token_trees }
}

} // verus!
