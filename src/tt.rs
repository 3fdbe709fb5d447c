//! Token trees: the delimiter-grouped token sequences that macros consume and
//! produce, and the positions they are attributed to.
use vstd::prelude::*;

verus! {

/// The id of a token inside a token tree; it maps back to a source range
/// through a `TokenMap`.
#[derive(Clone, Copy, Debug, PartialEq, Eq, Structural)]
pub struct TokenId(pub u32);

/// The id reserved for tokens that come from no source buffer.
pub const UNSPECIFIED_ID: u32 = 0xffff_ffff;

impl TokenId {
    pub fn unspecified() -> (r: TokenId)
        ensures
            r.0 == UNSPECIFIED_ID,
    {
        TokenId(UNSPECIFIED_ID)
    }
}

/// A tag that a caller gives to a token it injects.
#[derive(Clone, Copy, Debug, PartialEq, Eq, Structural)]
pub struct SyntheticTokenId(pub u32);

/// A half-open byte range `start..end`.
#[derive(Clone, Copy, Debug, PartialEq, Eq, Structural)]
pub struct TextRange {
    pub start: u32,
    pub end: u32,
}

impl TextRange {
    pub open spec fn wf(self) -> bool {
        self.start <= self.end
    }

    pub open spec fn spec_len(self) -> int {
        self.end - self.start
    }

    pub open spec fn contains_range(self, other: TextRange) -> bool {
        self.start <= other.start && other.end <= self.end
    }

    /// The range of `len` bytes that starts at `start`.
    pub fn at(start: u32, len: u32) -> (r: TextRange)
        requires
            start + len <= u32::MAX,
        ensures
            r.start == start,
            r.end == start + len,
    {
        TextRange { start, end: start + len }
    }

    pub open spec fn shifted(self, offset: u32) -> TextRange {
        TextRange { start: (self.start - offset) as u32, end: (self.end - offset) as u32 }
    }

    /// The same range, moved `offset` bytes towards zero.
    pub fn shift_back(self, offset: u32) -> (r: TextRange)
        requires
            offset <= self.start,
            self.wf(),
        ensures
            r == self.shifted(offset),
            r.start == self.start - offset,
            r.end == self.end - offset,
            r.wf(),
    {
        TextRange { start: self.start - offset, end: self.end - offset }
    }
}

#[derive(Clone, Copy, Debug, PartialEq, Eq, Structural)]
pub enum DelimiterKind {
    Parenthesis,
    Brace,
    Bracket,
}

impl DelimiterKind {
    pub open spec fn spec_open_char(self) -> char {
        match self {
            DelimiterKind::Parenthesis => '(',
            DelimiterKind::Brace => '{',
            DelimiterKind::Bracket => '[',
        }
    }

    pub open spec fn spec_close_char(self) -> char {
        match self {
            DelimiterKind::Parenthesis => ')',
            DelimiterKind::Brace => '}',
            DelimiterKind::Bracket => ']',
        }
    }

    /// The opening character of the delimiter.
    pub fn open_char(self) -> (r: char)
        ensures
            r == self.spec_open_char(),
    {
        match self {
            DelimiterKind::Parenthesis => '(',
            DelimiterKind::Brace => '{',
            DelimiterKind::Bracket => '[',
        }
    }

    /// The closing character of the delimiter.
    pub fn close_char(self) -> (r: char)
        ensures
            r == self.spec_close_char(),
    {
        match self {
            DelimiterKind::Parenthesis => ')',
            DelimiterKind::Brace => '}',
            DelimiterKind::Bracket => ']',
        }
    }
}

#[derive(Clone, Copy, Debug, PartialEq, Eq, Structural)]
pub struct Delimiter {
    pub id: TokenId,
    pub kind: DelimiterKind,
}

#[derive(Clone, Copy, Debug, PartialEq, Eq, Structural)]
pub enum Spacing {
    Alone,
    Joint,
}

#[derive(Clone, Debug)]
pub struct Ident {
    pub text: String,
    pub id: TokenId,
}

#[derive(Clone, Debug)]
pub struct Literal {
    pub text: String,
    pub id: TokenId,
}

#[derive(Clone, Copy, Debug)]
pub struct Punct {
    pub char: char,
    pub spacing: Spacing,
    pub id: TokenId,
}

#[derive(Clone, Debug)]
pub enum Leaf {
    Literal(Literal),
    Punct(Punct),
    Ident(Ident),
}

#[derive(Debug)]
pub enum TokenTree {
    Leaf(Leaf),
    Subtree(Subtree),
}

#[derive(Debug)]
pub struct Subtree {
    pub delimiter: Option<Delimiter>,
    pub token_trees: Vec<TokenTree>,
}

/// Relies on `String::push`: appends one character.
#[verifier::external_body]
pub(crate) fn push_char(s: &mut String, c: char)
    ensures
        final(s)@ == old(s)@.push(c),
{
    s.push(c)
}

pub open spec fn is_ascii_char(c: char) -> bool {
    (c as u32) < 128
}

/// A leaf is well formed when a punct holds one ASCII character and an
/// identifier is not empty.
pub open spec fn leaf_wf(l: Leaf) -> bool {
    match l {
        Leaf::Punct(p) => is_ascii_char(p.char),
        Leaf::Ident(i) => i.text@.len() > 0,
        Leaf::Literal(_) => true,
    }
}

/// Every leaf of the tree is well formed.
pub open spec fn tree_wf(t: TokenTree) -> bool
    decreases t,
{
    match t {
        TokenTree::Leaf(l) => leaf_wf(l),
        TokenTree::Subtree(s) => forall|i: int|
            0 <= i < s.token_trees@.len() ==> tree_wf(s.token_trees@[i]),
    }
}

/// The leaf `l` occurs somewhere in the tree `t`.
pub open spec fn leaf_in_tree(t: TokenTree, l: Leaf) -> bool
    decreases t,
{
    match t {
        TokenTree::Leaf(x) => x == l,
        TokenTree::Subtree(s) => exists|i: int|
            0 <= i < s.token_trees@.len() && leaf_in_tree(s.token_trees@[i], l),
    }
}

/// The leaf `l` occurs somewhere in the trees `ts`.
pub open spec fn leaf_in_trees(ts: Seq<TokenTree>, l: Leaf) -> bool {
    exists|i: int| 0 <= i < ts.len() && leaf_in_tree(ts[i], l)
}

pub open spec fn leaf_id(l: Leaf) -> TokenId {
    match l {
        Leaf::Ident(i) => i.id,
        Leaf::Literal(i) => i.id,
        Leaf::Punct(p) => p.id,
    }
}

/// The length in bytes of the UTF-8 encoding of `s`, as `str::len`
/// reports it.
pub open spec fn utf8_len(s: Seq<char>) -> int {
    vstd::utf8::encode_utf8(s).len() as usize as int
}

/// The length in bytes of the leaf's text.
pub open spec fn leaf_len(l: Leaf) -> int {
    match l {
        Leaf::Ident(i) => utf8_len(i.text@),
        Leaf::Literal(i) => utf8_len(i.text@),
        Leaf::Punct(_) => 1,
    }
}

pub open spec fn trees_wf(ts: Seq<TokenTree>) -> bool {
    forall|i: int| 0 <= i < ts.len() ==> #[trigger] tree_wf(ts[i])
}

pub open spec fn subtree_wf(s: Subtree) -> bool {
    trees_wf(s.token_trees@)
}

/// A subtree taken as a token tree is well formed exactly when its children
/// are.
pub proof fn lemma_subtree_wf(s: Subtree)
    ensures
        tree_wf(TokenTree::Subtree(s)) <==> subtree_wf(s),
{
    if subtree_wf(s) {
        assert forall|i: int| 0 <= i < s.token_trees@.len() implies tree_wf(s.token_trees@[i]) by {
            assert(tree_wf(s.token_trees@[i]));
        }
    }
}

/// A copy of the leaf.
pub fn copy_leaf(l: &Leaf) -> (r: Leaf)
    ensures
        r == *l,
{
    match l {
        Leaf::Ident(i) => Leaf::Ident(Ident { text: i.text.clone(), id: i.id }),
        Leaf::Literal(i) => Leaf::Literal(Literal { text: i.text.clone(), id: i.id }),
        Leaf::Punct(p) => Leaf::Punct(Punct { char: p.char, spacing: p.spacing, id: p.id }),
    }
}

/// A copy of the children `from..to` of `ts`.
pub fn copy_range(ts: &Vec<TokenTree>, from: usize, to: usize) -> (r: Vec<TokenTree>)
    requires
        from <= to <= ts@.len(),
        trees_wf(ts@),
    ensures
        trees_wf(r@),
        r@.len() == to - from,
        trees_view(r@) == trees_view(ts@.subrange(from as int, to as int)),
    decreases ts,
{
    let mut out: Vec<TokenTree> = Vec::new();
    let mut i = from;
    while i < to
        invariant
            from <= i <= to,
            to <= ts@.len(),
            out@.len() == i - from,
            trees_wf(ts@),
            trees_wf(out@),
            trees_view(out@) == trees_view(ts@.subrange(from as int, i as int)),
        decreases to - i,
    {
        assert(tree_wf(ts@[i as int]));
        let t = match &ts[i] {
            TokenTree::Leaf(l) => TokenTree::Leaf(copy_leaf(l)),
            TokenTree::Subtree(s) => {
                proof {
                    lemma_subtree_wf(*s);
                    lemma_subtree_view(*s);
                }
                assert(decreases_to!(ts => ts@[i as int]));
                let c = copy_range(&s.token_trees, 0, s.token_trees.len());
                let s2 = Subtree { delimiter: s.delimiter, token_trees: c };
                proof {
                    lemma_subtree_wf(s2);
                    lemma_subtree_view(s2);
                    assert(s.token_trees@.subrange(0, s.token_trees@.len() as int) =~= s.token_trees@);
                }
                TokenTree::Subtree(s2)
            },
        };
        proof {
            assert(tree_view(t) == tree_view(ts@[i as int]));
            assert forall|k: int| 0 <= k < out@.push(t).len() implies #[trigger] tree_wf(out@.push(t)[k]) by {
                if k < out@.len() {
                    assert(tree_wf(out@[k]));
                }
            }
            assert(trees_view(out@.push(t)) =~= trees_view(out@).push(tree_view(t)));
            assert(trees_view(ts@.subrange(from as int, i + 1)) =~= trees_view(
                ts@.subrange(from as int, i as int),
            ).push(tree_view(ts@[i as int])));
        }
        out.push(t);
        i = i + 1;
    }
    out
}

/// A copy of the trees.
pub fn copy_trees(ts: &Vec<TokenTree>) -> (r: Vec<TokenTree>)
    requires
        trees_wf(ts@),
    ensures
        trees_wf(r@),
        r@.len() == ts@.len(),
        trees_view(r@) == trees_view(ts@),
{
    let r = copy_range(ts, 0, ts.len());
    proof {
        assert(ts@.subrange(0, ts@.len() as int) =~= ts@);
    }
    r
}

/// A leaf as the contracts read it.
pub enum LeafView {
    Ident(Seq<char>, TokenId),
    Literal(Seq<char>, TokenId),
    Punct(char, Spacing, TokenId),
}

/// A token tree as the contracts read it.
pub enum TreeView {
    Leaf(LeafView),
    Node(Option<Delimiter>, Seq<TreeView>),
}

pub open spec fn leaf_view(l: Leaf) -> LeafView {
    match l {
        Leaf::Ident(i) => LeafView::Ident(i.text@, i.id),
        Leaf::Literal(i) => LeafView::Literal(i.text@, i.id),
        Leaf::Punct(p) => LeafView::Punct(p.char, p.spacing, p.id),
    }
}

pub open spec fn tree_view(t: TokenTree) -> TreeView
    decreases t,
{
    match t {
        TokenTree::Leaf(l) => TreeView::Leaf(leaf_view(l)),
        TokenTree::Subtree(s) => TreeView::Node(
            s.delimiter,
            Seq::new(
                s.token_trees@.len(),
                |i: int|
                    if 0 <= i < s.token_trees@.len() {
                        tree_view(s.token_trees@[i])
                    } else {
                        TreeView::Node(None, seq![])
                    },
            ),
        ),
    }
}

pub open spec fn trees_view(ts: Seq<TokenTree>) -> Seq<TreeView> {
    Seq::new(ts.len(), |i: int| tree_view(ts[i]))
}

pub open spec fn subtree_view(s: Subtree) -> TreeView {
    TreeView::Node(s.delimiter, trees_view(s.token_trees@))
}

/// A subtree viewed as a token tree is its node view.
pub proof fn lemma_subtree_view(s: Subtree)
    ensures
        tree_view(TokenTree::Subtree(s)) == subtree_view(s),
{
    assert(tree_view(TokenTree::Subtree(s))->Node_1 =~= trees_view(s.token_trees@));
}

} // verus!
