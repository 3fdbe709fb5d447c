//! Token trees replayed through the steps of a parser into the calls that
//! build a syntax tree, with the positions of their tokens recorded.
use vstd::prelude::*;
use crate::convert::SyntaxKind;
use crate::token_map::{TokenMap, TokenTextRange};
use crate::tt::{
    leaf_view, lemma_subtree_view, subtree_view, tree_view, trees_view, LeafView, TreeView,
    copy_leaf, leaf_id, leaf_in_tree, leaf_in_trees, leaf_len, leaf_wf, push_char, subtree_wf,
    tree_wf, Delimiter, Leaf, Punct, Spacing, Subtree, TextRange, TokenId,
    TokenTree,
};

verus! {

/// One step that the parser emits while it reads the linearized tree.
#[derive(Clone, Debug)]
pub enum Step {
    Token { kind: SyntaxKind, n_input_tokens: u8 },
    Enter { kind: SyntaxKind },
    Exit,
    Error { msg: String },
}

/// One call to a syntax tree builder.
#[derive(Clone, Debug)]
pub enum BuildEvent {
    StartNode(SyntaxKind),
    FinishNode,
    Token(SyntaxKind, String),
    Error(String, u32),
}

/// A token tree laid out flat: leaves, and the two ends of each subtree.
#[derive(Clone, Debug)]
pub enum FlatEntry {
    Leaf(Leaf),
    Open(Option<Delimiter>),
    Close(Option<Delimiter>),
}

/// A flat entry as the contracts read it.
pub enum FlatView {
    Leaf(LeafView),
    Open(Option<Delimiter>),
    Close(Option<Delimiter>),
}

pub open spec fn flat_view(e: FlatEntry) -> FlatView {
    match e {
        FlatEntry::Leaf(l) => FlatView::Leaf(leaf_view(l)),
        FlatEntry::Open(d) => FlatView::Open(d),
        FlatEntry::Close(d) => FlatView::Close(d),
    }
}

pub open spec fn flat_views(es: Seq<FlatEntry>) -> Seq<FlatView> {
    es.map_values(|e: FlatEntry| flat_view(e))
}

/// A tree laid out flat: a leaf, or a subtree's opener, its children laid
/// out flat, and its closer.
pub open spec fn flat_tree(t: TreeView) -> Seq<FlatView>
    decreases t,
{
    match t {
        TreeView::Leaf(l) => seq![FlatView::Leaf(l)],
        TreeView::Node(d, cs) => seq![FlatView::Open(d)] + flat_trees(cs) + seq![FlatView::Close(d)],
    }
}

/// Trees laid out flat one after the other.
pub open spec fn flat_trees(cs: Seq<TreeView>) -> Seq<FlatView>
    decreases cs,
{
    if cs.len() == 0 {
        seq![]
    } else {
        flat_trees(cs.drop_last()) + flat_tree(cs.last())
    }
}

pub open spec fn flat_entry_wf(e: FlatEntry) -> bool {
    e matches FlatEntry::Leaf(l) ==> leaf_wf(l)
}

pub open spec fn flat_wf(es: Seq<FlatEntry>) -> bool {
    forall|i: int| 0 <= i < es.len() ==> #[trigger] flat_entry_wf(es[i])
}

/// Appends `ts`, laid out flat, to `out`.
fn flatten_into(ts: &Vec<TokenTree>, out: &mut Vec<FlatEntry>)
    requires
        flat_wf(old(out)@),
        forall|i: int| 0 <= i < ts@.len() ==> tree_wf(#[trigger] ts@[i]),
    ensures
        flat_wf(final(out)@),
        final(out)@.len() >= old(out)@.len(),
        forall|j: int| 0 <= j < old(out)@.len() ==> final(out)@[j] == old(out)@[j],
        forall|j: int|
            old(out)@.len() <= j < final(out)@.len() ==> (#[trigger] final(out)@[j] matches FlatEntry::Leaf(
                l,
            ) ==> leaf_in_trees(ts@, l)),
        flat_views(final(out)@) == flat_views(old(out)@) + flat_trees(trees_view(ts@)),
    decreases ts,
{
    let mut i: usize = 0;
    while i < ts.len()
        invariant
            i <= ts@.len(),
            flat_wf(out@),
            old(out)@.len() <= out@.len(),
            forall|k: int| 0 <= k < ts@.len() ==> tree_wf(#[trigger] ts@[k]),
            forall|j: int| 0 <= j < old(out)@.len() ==> out@[j] == old(out)@[j],
            forall|j: int|
                old(out)@.len() <= j < out@.len() ==> (#[trigger] out@[j] matches FlatEntry::Leaf(l)
                    ==> leaf_in_trees(ts@, l)),
            flat_views(out@) == flat_views(old(out)@) + flat_trees(trees_view(ts@).take(i as int)),
        decreases ts@.len() - i,
    {
        assert(tree_wf(ts@[i as int]));
        let ghost fv0 = flat_views(out@);
        proof {
            let tv = trees_view(ts@);
            assert(tv.take(i + 1).drop_last() =~= tv.take(i as int));
            assert(tv.take(i + 1).last() == tree_view(ts@[i as int]));
        }
        match &ts[i] {
            TokenTree::Leaf(l) => {
                let c = copy_leaf(l);
                proof {
                    assert(leaf_in_tree(ts@[i as int], c));
                    assert(leaf_in_trees(ts@, c));
                }
                out.push(FlatEntry::Leaf(c));
                proof {
                    assert(tree_view(ts@[i as int]) == TreeView::Leaf(leaf_view(c)));
                    assert(flat_tree(TreeView::Leaf(leaf_view(c))) == seq![FlatView::Leaf(leaf_view(c))]);
                    let x = FlatView::Leaf(leaf_view(c));
                    assert(flat_views(out@) =~= fv0.push(x));
                    assert(fv0.push(x) =~= fv0 + seq![x]);
                    assert(flat_views(out@) == fv0 + flat_tree(tree_view(ts@[i as int])));
                }
            },
            TokenTree::Subtree(s) => {
                proof {
                    crate::tt::lemma_subtree_wf(*s);
                }
                out.push(FlatEntry::Open(s.delimiter));
                let ghost mid = out@;
                proof {
                    assert(flat_views(mid) =~= fv0.push(FlatView::Open(s.delimiter)));
                }
                assert(decreases_to!(ts => ts@[i as int]));
                flatten_into(&s.token_trees, out);
                proof {
                    assert forall|j: int|
                        old(out)@.len() <= j < out@.len() implies (#[trigger] out@[j] matches FlatEntry::Leaf(l)
                            ==> leaf_in_trees(ts@, l)) by {
                        if j < mid.len() {
                            assert(out@[j] == mid[j]);
                        } else if let FlatEntry::Leaf(l) = out@[j] {
                            assert(leaf_in_trees(s.token_trees@, l));
                            let k = choose|k: int| 0 <= k < s.token_trees@.len() && leaf_in_tree(s.token_trees@[k], l);
                            assert(leaf_in_tree(TokenTree::Subtree(*s), l));
                            assert(leaf_in_tree(ts@[i as int], l));
                        }
                    }
                }
                let ghost before_close = out@;
                out.push(FlatEntry::Close(s.delimiter));
                proof {
                    lemma_subtree_view(*s);
                    let inner = flat_trees(trees_view(s.token_trees@));
                    let op = FlatView::Open(s.delimiter);
                    let cl = FlatView::Close(s.delimiter);
                    assert(flat_views(mid) =~= fv0 + seq![op]);
                    assert(flat_views(before_close) == flat_views(mid) + inner);
                    assert(flat_views(out@) =~= flat_views(before_close).push(cl));
                    assert(tree_view(ts@[i as int]) == TreeView::Node(s.delimiter, trees_view(s.token_trees@)));
                    assert(flat_tree(tree_view(ts@[i as int])) == seq![op] + inner + seq![cl]);
                    assert(flat_views(out@) =~= fv0 + (seq![op] + inner + seq![cl]));
                }
            },
        }
        proof {
            assert(flat_views(out@) =~= flat_views(old(out)@) + flat_trees(trees_view(ts@).take(i + 1)));
        }
        i = i + 1;
    }
    proof {
        assert(trees_view(ts@).take(ts@.len() as int) =~= trees_view(ts@));
    }
}

/// The tree laid out flat. A root without delimiter contributes only its
/// children.
pub fn flatten(tt: &Subtree) -> (r: Vec<FlatEntry>)
    requires
        subtree_wf(*tt),
    ensures
        flat_wf(r@),
        forall|j: int|
            0 <= j < r@.len() ==> (#[trigger] r@[j] matches FlatEntry::Leaf(l) ==> leaf_in_trees(
                tt.token_trees@,
                l,
            )),
        flat_views(r@) == (match tt.delimiter {
            None => flat_trees(trees_view(tt.token_trees@)),
            Some(_) => flat_tree(subtree_view(*tt)),
        }),
{
    let mut out: Vec<FlatEntry> = Vec::new();
    proof {
        assert(flat_views(out@) =~= seq![]);
    }
    match tt.delimiter {
        None => {
            flatten_into(&tt.token_trees, &mut out);
            proof {
                assert(seq![] + flat_trees(trees_view(tt.token_trees@)) =~= flat_trees(
                    trees_view(tt.token_trees@),
                ));
            }
        },
        Some(_) => {
            out.push(FlatEntry::Open(tt.delimiter));
            let ghost a = out@;
            flatten_into(&tt.token_trees, &mut out);
            let ghost b = out@;
            out.push(FlatEntry::Close(tt.delimiter));
            proof {
                let op = FlatView::Open(tt.delimiter);
                let cl = FlatView::Close(tt.delimiter);
                let inner = flat_trees(trees_view(tt.token_trees@));
                assert(flat_views(a) =~= seq![op]);
                assert(flat_views(out@) =~= flat_views(b).push(cl));
                assert(flat_views(out@) =~= seq![op] + inner + seq![cl]);
            }
        },
    }
    out
}

/// The range stays within the first `end` bytes of the text; a delimiter
/// pair is one byte at each end, the opener before the closer.
pub open spec fn range_below(r: TokenTextRange, end: u32) -> bool {
    match r {
        TokenTextRange::Token(t) => t.wf() && t.end <= end,
        TokenTextRange::Delimiter { open, close } => {
            &&& open.wf() && close.wf()
            &&& open.spec_len() == 1 && close.spec_len() == 1
            &&& open.end <= close.start
            &&& close.end <= end
        },
    }
}

/// Every range that `map` records lies within the first `end` bytes.
pub open spec fn map_within(map: TokenMap, end: u32) -> bool {
    forall|i: int| 0 <= i < map.entries@.len() ==> #[trigger] range_below(map.entries@[i].1, end)
}

/// An ordinary range recorded under `e.0` spans as many bytes as the text of
/// a leaf of `flat` with that id.
pub open spec fn token_from_flat(e: (TokenId, TokenTextRange), flat: Seq<FlatEntry>) -> bool {
    e.1 is Token ==> exists|j: int|
        0 <= j < flat.len() && (#[trigger] flat[j] matches FlatEntry::Leaf(l) && leaf_id(l) == e.0
            && e.1->Token_0.spec_len() == leaf_len(l))
}

/// An ordinary range recorded under `e.0` spans as many bytes as the text of
/// a leaf of `ts` with that id.
pub open spec fn token_from_leaf(e: (TokenId, TokenTextRange), ts: Seq<TokenTree>) -> bool {
    e.1 is Token ==> exists|l: Leaf|
        leaf_in_trees(ts, l) && leaf_id(l) == e.0 && e.1->Token_0.spec_len() == leaf_len(l)
}

/// The result of a replay: the builder calls, and the length in bytes of the
/// text they spell.
pub struct Parse {
    pub events: Vec<BuildEvent>,
    pub text_len: u32,
}

/// A builder call as the contracts read it.
pub enum EventView {
    StartNode(SyntaxKind),
    FinishNode,
    Token(SyntaxKind, Seq<char>),
    Error(Seq<char>, u32),
}

pub open spec fn event_view(e: BuildEvent) -> EventView {
    match e {
        BuildEvent::StartNode(k) => EventView::StartNode(k),
        BuildEvent::FinishNode => EventView::FinishNode,
        BuildEvent::Token(k, t) => EventView::Token(k, t@),
        BuildEvent::Error(m, p) => EventView::Error(m@, p),
    }
}

pub open spec fn event_views(es: Seq<BuildEvent>) -> Seq<EventView> {
    es.map_values(|e: BuildEvent| event_view(e))
}

/// The tree laid out flat, as the replay reads it: a root without delimiter
/// contributes only its children.
pub open spec fn flat_of(tt: Subtree) -> Seq<FlatView> {
    match tt.delimiter {
        None => flat_trees(trees_view(tt.token_trees@)),
        Some(_) => flat_tree(subtree_view(tt)),
    }
}

/// The text a leaf writes, and its length in bytes.
pub open spec fn leaf_view_text(l: LeafView) -> Seq<char> {
    match l {
        LeafView::Ident(t, _) => t,
        LeafView::Literal(t, _) => t,
        LeafView::Punct(c, _, _) => seq![c],
    }
}

pub open spec fn leaf_view_len(l: LeafView) -> int {
    match l {
        LeafView::Ident(t, _) => crate::tt::utf8_len(t),
        LeafView::Literal(t, _) => crate::tt::utf8_len(t),
        LeafView::Punct(..) => 1,
    }
}

pub open spec fn leaf_view_id(l: LeafView) -> TokenId {
    match l {
        LeafView::Ident(_, id) => id,
        LeafView::Literal(_, id) => id,
        LeafView::Punct(_, _, id) => id,
    }
}

/// An opener or closer of a subtree without delimiter: it writes nothing.
pub open spec fn transparent(e: FlatView) -> bool {
    e matches FlatView::Open(None) || e matches FlatView::Close(None)
}

/// The first entry from `c` on that writes something.
pub open spec fn skip_transparent(flat: Seq<FlatView>, c: int) -> int
    decreases flat.len() - c,
{
    if 0 <= c < flat.len() && transparent(flat[c]) {
        skip_transparent(flat, c + 1)
    } else {
        c
    }
}

/// Where the opener of the delimiter `id` was written, the latest first.
pub open spec fn find_open(open: Seq<(TokenId, u32)>, id: TokenId) -> Option<u32>
    decreases open.len(),
{
    if open.len() == 0 {
        None
    } else if open.last().0 == id {
        Some(open.last().1)
    } else {
        find_open(open.drop_last(), id)
    }
}

/// The replay's state inside one token step: the cursor, the text position
/// (unbounded), the token's text so far, the map entries, the written
/// openers, and the entry the step last started at.
pub struct Replay {
    pub cursor: int,
    pub pos: int,
    pub buf: Seq<char>,
    pub entries: Seq<(TokenId, TokenTextRange)>,
    pub open: Seq<(TokenId, u32)>,
    pub last: int,
}

/// Writes the entry at the cursor.
pub open spec fn consume_one(flat: Seq<FlatView>, r: Replay) -> Replay {
    let c = r.cursor;
    let p = r.pos;
    match flat[c] {
        FlatView::Leaf(l) => {
            let len = leaf_view_len(l);
            Replay {
                cursor: c + 1,
                pos: p + len,
                buf: r.buf + leaf_view_text(l),
                entries: r.entries.push(
                    (leaf_view_id(l), TokenTextRange::Token(TextRange { start: p as u32, end: (p + len) as u32 })),
                ),
                ..r
            }
        },
        FlatView::Open(d) => match d {
            Some(d) => Replay {
                cursor: c + 1,
                pos: p + 1,
                buf: r.buf.push(d.kind.spec_open_char()),
                open: r.open.push((d.id, p as u32)),
                ..r
            },
            None => Replay { cursor: c + 1, ..r },
        },
        FlatView::Close(d) => match d {
            Some(d) => Replay {
                cursor: c + 1,
                pos: p + 1,
                buf: r.buf.push(d.kind.spec_close_char()),
                entries: match find_open(r.open, d.id) {
                    Some(o) => r.entries.push(
                        (
                            d.id,
                            TokenTextRange::Delimiter {
                                open: TextRange { start: o, end: (o + 1) as u32 },
                                close: TextRange { start: p as u32, end: (p + 1) as u32 },
                            },
                        ),
                    ),
                    None => r.entries,
                },
                ..r
            },
            None => Replay { cursor: c + 1, ..r },
        },
    }
}

/// Takes up to `k` more entries that write something.
pub open spec fn consume(flat: Seq<FlatView>, r: Replay, k: nat) -> Replay
    decreases k,
{
    if k == 0 || r.cursor < 0 || r.cursor >= flat.len() {
        r
    } else {
        let c = skip_transparent(flat, r.cursor);
        let r1 = Replay { last: r.cursor, cursor: c, ..r };
        if c >= flat.len() {
            r1
        } else {
            consume(flat, consume_one(flat, r1), (k - 1) as nat)
        }
    }
}

/// The state of a replay between parser steps.
pub struct SinkState {
    pub cursor: int,
    pub pos: int,
    pub events: Seq<EventView>,
    pub entries: Seq<(TokenId, TokenTextRange)>,
    pub open: Seq<(TokenId, u32)>,
}

/// A space goes after the token when the entry it last started at is an
/// alone punct other than `;` and the next entry is a punct too.
pub open spec fn needs_space(flat: Seq<FlatView>, last: int) -> bool {
    &&& 0 <= last && last + 1 < flat.len()
    &&& flat[last] matches FlatView::Leaf(LeafView::Punct(c, sp, _))
    &&& sp == Spacing::Alone && c != ';'
    &&& flat[last + 1] matches FlatView::Leaf(LeafView::Punct(..))
}

/// One token step: `n_tokens` entries (two for a lifetime) make one token of
/// kind `kind`, perhaps followed by a space.
pub open spec fn token_step(flat: Seq<FlatView>, s: SinkState, kind: SyntaxKind, n_tokens: u8) -> SinkState {
    let n: nat = if kind == SyntaxKind::LifetimeIdent {
        2
    } else {
        n_tokens as nat
    };
    let r = consume(
        flat,
        Replay { cursor: s.cursor, pos: s.pos, buf: seq![], entries: s.entries, open: s.open, last: s.cursor },
        n,
    );
    let events = s.events.push(EventView::Token(kind, r.buf));
    if needs_space(flat, r.last) {
        SinkState {
            cursor: r.cursor,
            pos: r.pos + 1,
            events: events.push(EventView::Token(SyntaxKind::Whitespace, seq![' '])),
            entries: r.entries,
            open: r.open,
        }
    } else {
        SinkState { cursor: r.cursor, pos: r.pos, events, entries: r.entries, open: r.open }
    }
}

/// One parser step replayed.
pub open spec fn replay_step(flat: Seq<FlatView>, s: SinkState, step: Step) -> SinkState {
    match step {
        Step::Token { kind, n_input_tokens } => token_step(flat, s, kind, n_input_tokens),
        Step::Enter { kind } => SinkState { events: s.events.push(EventView::StartNode(kind)), ..s },
        Step::Exit => SinkState { events: s.events.push(EventView::FinishNode), ..s },
        Step::Error { msg } => SinkState { events: s.events.push(EventView::Error(msg@, s.pos as u32)), ..s },
    }
}

/// The steps from `i` on replayed.
pub open spec fn replay(flat: Seq<FlatView>, steps: Seq<Step>, i: int, s: SinkState) -> SinkState
    decreases steps.len() - i,
{
    if i < 0 || i >= steps.len() {
        s
    } else {
        replay(flat, steps, i + 1, replay_step(flat, s, steps[i]))
    }
}

pub open spec fn replay_start() -> SinkState {
    SinkState { cursor: 0, pos: 0, events: seq![], entries: seq![], open: seq![] }
}

proof fn lemma_consume_grows(flat: Seq<FlatView>, r: Replay, k: nat)
    ensures
        consume(flat, r, k).pos >= r.pos,
    decreases k,
{
    if !(k == 0 || r.cursor < 0 || r.cursor >= flat.len()) {
        let c = skip_transparent(flat, r.cursor);
        let r1 = Replay { last: r.cursor, cursor: c, ..r };
        if c < flat.len() {
            lemma_consume_grows(flat, consume_one(flat, r1), (k - 1) as nat);
        }
    }
}

proof fn lemma_replay_grows(flat: Seq<FlatView>, steps: Seq<Step>, i: int, s: SinkState)
    ensures
        replay(flat, steps, i, s).pos >= s.pos,
    decreases steps.len() - i,
{
    if 0 <= i < steps.len() {
        let s1 = replay_step(flat, s, steps[i]);
        if let Step::Token { kind, n_input_tokens } = steps[i] {
            let n: nat = if kind == SyntaxKind::LifetimeIdent { 2 } else { n_input_tokens as nat };
            lemma_consume_grows(
                flat,
                Replay { cursor: s.cursor, pos: s.pos, buf: seq![], entries: s.entries, open: s.open, last: s.cursor },
                n,
            );
        }
        lemma_replay_grows(flat, steps, i + 1, s1);
    }
}

struct TtTreeSink {
    cursor: usize,
    entries: Vec<FlatEntry>,
    open_delims: Vec<(TokenId, u32)>,
    text_pos: u32,
    events: Vec<BuildEvent>,
    token_map: TokenMap,
}

/// The state that a running sink stands for.
spec fn sink_state(s: TtTreeSink) -> SinkState {
    SinkState {
        cursor: s.cursor as int,
        pos: s.text_pos as int,
        events: event_views(s.events@),
        entries: s.token_map.entries@,
        open: s.open_delims@,
    }
}

/// The replay state inside a token step that a running sink and its buffer
/// stand for.
spec fn replay_of(s: TtTreeSink, buf: Seq<char>, last: int) -> Replay {
    Replay {
        cursor: s.cursor as int,
        pos: s.text_pos as int,
        buf,
        entries: s.token_map.entries@,
        open: s.open_delims@,
        last,
    }
}

fn is_transparent(e: &FlatEntry) -> (r: bool)
    ensures
        r <==> (*e matches FlatEntry::Open(None) || *e matches FlatEntry::Close(None)),
{
    match e {
        FlatEntry::Open(None) | FlatEntry::Close(None) => true,
        _ => false,
    }
}

fn leaf_punct(e: &FlatEntry) -> (r: Option<Punct>)
    ensures
        r matches Some(p) ==> *e == FlatEntry::Leaf(Leaf::Punct(p)),
        r is None <==> !(*e matches FlatEntry::Leaf(Leaf::Punct(_))),
{
    match e {
        FlatEntry::Leaf(Leaf::Punct(p)) => Some(*p),
        _ => None,
    }
}

impl TtTreeSink {
    spec fn wf(&self) -> bool {
        &&& self.cursor <= self.entries@.len()
        &&& flat_wf(self.entries@)
        &&& map_within(self.token_map, self.text_pos)
        &&& forall|i: int| 0 <= i < self.open_delims@.len() ==> #[trigger] self.open_delims@[i].1 < self.text_pos
        &&& forall|i: int|
            0 <= i < self.token_map.entries@.len() ==> #[trigger] token_from_flat(
                self.token_map.entries@[i],
                self.entries@,
            )
    }

    fn new(entries: Vec<FlatEntry>) -> (r: TtTreeSink)
        requires
            flat_wf(entries@),
        ensures
            r.wf(),
            r.text_pos == 0,
            r.entries == entries,
            sink_state(r) == replay_start(),
    {
        let r = TtTreeSink {
            cursor: 0,
            entries,
            open_delims: Vec::new(),
            text_pos: 0,
            events: Vec::new(),
            token_map: TokenMap::new(),
        };
        proof {
            assert(event_views(r.events@) =~= seq![]);
            assert(r.token_map.entries@ =~= seq![]);
            assert(r.open_delims@ =~= seq![]);
        }
        r
    }

    /// Moves `text_pos` forward by `len`, unless that leaves the `u32` range.
    fn advance(&mut self, len: usize) -> (ok: bool)
        requires
            old(self).wf(),
        ensures
            final(self).wf(),
            ok ==> final(self).text_pos == old(self).text_pos + len,
            !ok ==> final(self).text_pos == old(self).text_pos,
            !ok ==> old(self).text_pos + len > u32::MAX,
            final(self).cursor == old(self).cursor,
            final(self).entries == old(self).entries,
            final(self).token_map == old(self).token_map,
            final(self).open_delims == old(self).open_delims,
            final(self).events == old(self).events,
    {
        if len > (u32::MAX - self.text_pos) as usize {
            return false;
        }
        let ghost p0 = self.text_pos;
        self.text_pos = self.text_pos + len as u32;
        proof {
            assert forall|i: int| 0 <= i < self.token_map.entries@.len() implies #[trigger] range_below(self.token_map.entries@[i].1, self.text_pos) by {
                assert(range_below(self.token_map.entries@[i].1, p0));
            }
            assert forall|i: int| 0 <= i < self.open_delims@.len() implies #[trigger] self.open_delims@[i].1 < self.text_pos by {
                assert(self.open_delims@[i].1 < p0);
            }
        }
        true
    }

    /// Where the opener of the delimiter `id` was written, if it was.
    fn open_position(&self, id: TokenId) -> (r: Option<u32>)
        requires
            self.wf(),
        ensures
            r matches Some(p) ==> p < self.text_pos,
            r == find_open(self.open_delims@, id),
    {
        let mut i: usize = self.open_delims.len();
        proof {
            assert(self.open_delims@.take(i as int) =~= self.open_delims@);
        }
        while i > 0
            invariant
                i <= self.open_delims@.len(),
                self.wf(),
                find_open(self.open_delims@, id) == find_open(self.open_delims@.take(i as int), id),
            decreases i,
        {
            proof {
                let t = self.open_delims@.take(i as int);
                assert(t.drop_last() =~= self.open_delims@.take(i - 1));
                assert(t.last() == self.open_delims@[i - 1]);
            }
            i = i - 1;
            let (did, p) = self.open_delims[i];
            if did == id {
                assert(self.open_delims@[i as int].1 < self.text_pos);
                return Some(p);
            }
        }
        proof {
            assert(self.open_delims@.take(0) =~= Seq::<(TokenId, u32)>::empty());
        }
        None
    }

    /// Consumes the next `n_tokens` entries (two for a lifetime) as one token
    /// of kind `kind`, records the position of each leaf and delimiter pair,
    /// and separates two puncts by a space when the first is alone and not
    /// `;`. Returns false when a position would leave the `u32` range.
    fn token(&mut self, kind: SyntaxKind, n_tokens: u8) -> (ok: bool)
        requires
            old(self).wf(),
        ensures
            final(self).wf(),
            final(self).entries == old(self).entries,
            ok ==> sink_state(*final(self)) == token_step(
                flat_views(old(self).entries@),
                sink_state(*old(self)),
                kind,
                n_tokens,
            ),
            !ok ==> token_step(flat_views(old(self).entries@), sink_state(*old(self)), kind, n_tokens).pos
                > u32::MAX,
    {
        let ghost fv = flat_views(self.entries@);
        let n: u8 = if kind == SyntaxKind::LifetimeIdent {
            2
        } else {
            n_tokens
        };
        let len = self.entries.len();
        let mut buf = String::new();
        let mut last = self.cursor;
        let ghost r0 = replay_of(*self, buf@, last as int);
        let ghost target = consume(fv, r0, n as nat);
        let ghost s_old = sink_state(*self);
        assert(s_old == sink_state(*old(self)));
        assert(fv == flat_views(old(self).entries@));
        proof {
            assert(buf@ =~= seq![]);
            assert(r0 == Replay {
                cursor: s_old.cursor,
                pos: s_old.pos,
                buf: seq![],
                entries: s_old.entries,
                open: s_old.open,
                last: s_old.cursor,
            });
        }
        proof {
            let nn: nat = if kind == SyntaxKind::LifetimeIdent {
                2
            } else {
                n_tokens as nat
            };
            assert(nn == n as nat);
            assert(token_step(fv, s_old, kind, n_tokens).pos >= target.pos);
        }
        let mut count: u8 = 0;
        let mut stopped = false;
        while count < n && !stopped
            invariant
                self.wf(),
                len == self.entries@.len(),
                self.entries == old(self).entries,
                self.events == old(self).events,
                fv == flat_views(self.entries@),
                fv == flat_views(old(self).entries@),
                s_old == sink_state(*old(self)),
                token_step(fv, s_old, kind, n_tokens).pos >= target.pos,
                last <= len,
                count <= n,
                !stopped ==> consume(fv, replay_of(*self, buf@, last as int), (n - count) as nat) == target,
                stopped ==> replay_of(*self, buf@, last as int) == target,
            decreases n - count, (if stopped { 0int } else { 1int }),
        {
            if self.cursor >= len {
                stopped = true;
                continue;
            }
            let ghost rt = replay_of(*self, buf@, last as int);
            let ghost c_top = self.cursor as int;
            last = self.cursor;
            while self.cursor < len && is_transparent(&self.entries[self.cursor])
                invariant
                    self.wf(),
                    len == self.entries@.len(),
                    self.entries == old(self).entries,
                    self.events == old(self).events,
                    fv == flat_views(self.entries@),
                    c_top <= self.cursor <= len,
                    skip_transparent(fv, self.cursor as int) == skip_transparent(fv, c_top),
                    self.text_pos == rt.pos,
                    self.token_map.entries@ == rt.entries,
                    self.open_delims@ == rt.open,
                decreases len - self.cursor,
            {
                proof {
                    assert(fv[self.cursor as int] == flat_view(self.entries@[self.cursor as int]));
                }
                self.cursor = self.cursor + 1;
            }
            proof {
                if self.cursor < len {
                    assert(fv[self.cursor as int] == flat_view(self.entries@[self.cursor as int]));
                }
                assert(skip_transparent(fv, self.cursor as int) == self.cursor);
            }
            if self.cursor >= len {
                stopped = true;
                proof {
                    assert(replay_of(*self, buf@, last as int) == Replay { last: c_top, cursor: self.cursor as int, ..rt });
                }
                continue;
            }
            let ghost r1 = replay_of(*self, buf@, last as int);
            let ghost r2 = consume_one(fv, r1);
            proof {
                assert(r1 == Replay { last: c_top, cursor: skip_transparent(fv, c_top), ..rt });
                lemma_consume_grows(fv, r2, (n - count - 1) as nat);
                assert(fv[self.cursor as int] == flat_view(self.entries@[self.cursor as int]));
                assert(consume(fv, rt, (n - count) as nat) == consume(fv, r2, (n - count - 1) as nat));
            }
            let c = self.cursor;
            assert(flat_entry_wf(self.entries@[c as int]));
            match &self.entries[c] {
                FlatEntry::Leaf(leaf) => {
                    let ghost lf = *leaf;
                    let (id, tlen) = match leaf {
                        Leaf::Ident(i) => {
                            buf.append(i.text.as_str());
                            (i.id, i.text.as_str().len())
                        },
                        Leaf::Literal(l) => {
                            buf.append(l.text.as_str());
                            (l.id, l.text.as_str().len())
                        },
                        Leaf::Punct(p) => {
                            push_char(&mut buf, p.char);
                            (p.id, 1)
                        },
                    };
                    assert(id == leaf_id(lf));
                    assert(tlen == leaf_len(lf));
                    let start = self.text_pos;
                    proof {
                        assert(self.entries@[c as int] == FlatEntry::Leaf(lf));
                        assert(fv[c as int] == FlatView::Leaf(leaf_view(lf)));
                        assert(leaf_view_len(leaf_view(lf)) == tlen);
                        assert(r2.pos == r1.pos + tlen);
                    }
                    if !self.advance(tlen) {
                        proof {
                            assert(r2.pos > u32::MAX);
                                assert(target.pos >= r2.pos);
                                assert(token_step(fv, s_old, kind, n_tokens).pos > u32::MAX);

                        }
                        return false;
                    }
                    proof {
                        assert(buf@ =~= r1.buf + leaf_view_text(leaf_view(lf)));
                    }
                    let range = TextRange { start, end: self.text_pos };
                    let ghost m0 = self.token_map.entries@;
                    self.token_map.entries.push((id, TokenTextRange::Token(range)));
                    proof {
                        assert(range_below(TokenTextRange::Token(range), self.text_pos));
                        assert(self.entries@[c as int] == FlatEntry::Leaf(lf));
                        assert(token_from_flat((id, TokenTextRange::Token(range)), self.entries@));
                        assert forall|k: int| 0 <= k < self.token_map.entries@.len() implies #[trigger] token_from_flat(
                            self.token_map.entries@[k],
                            self.entries@,
                        ) by {
                            if k < m0.len() {
                                assert(self.token_map.entries@[k] == m0[k]);
                            }
                        }
                    }
                },
                FlatEntry::Open(d) => {
                    let d = *d;
                    if let Some(d) = d {
                        let start = self.text_pos;
                        proof {
                            assert(fv[c as int] == FlatView::Open(Some(d)));
                            assert(r2.pos == r1.pos + 1);
                        }
                        if !self.advance(1) {
                            proof {
                                assert(r2.pos > u32::MAX);
                                assert(target.pos >= r2.pos);
                                assert(token_step(fv, s_old, kind, n_tokens).pos > u32::MAX);

                            }
                            return false;
                        }
                        self.open_delims.push((d.id, start));
                        push_char(&mut buf, d.kind.open_char());

                    }
                },
                FlatEntry::Close(d) => {
                    let d = *d;
                    if let Some(d) = d {
                        let start = self.text_pos;
                        let opened = self.open_position(d.id);
                        proof {
                            assert(fv[c as int] == FlatView::Close(Some(d)));
                            assert(r2.pos == r1.pos + 1);
                        }
                        if !self.advance(1) {
                            proof {
                                assert(r2.pos > u32::MAX);
                                assert(target.pos >= r2.pos);
                                assert(token_step(fv, s_old, kind, n_tokens).pos > u32::MAX);

                            }
                            return false;
                        }
                        if let Some(open) = opened {
                            let open_range = TextRange { start: open, end: open + 1 };
                            let close_range = TextRange { start, end: start + 1 };
                            self.token_map.entries.push(
                                (d.id, TokenTextRange::Delimiter { open: open_range, close: close_range }),
                            );
                        }
                        push_char(&mut buf, d.kind.close_char());
                    }
                },
            }
            self.cursor = self.cursor + 1;
            count = count + 1;
            proof {
                assert(replay_of(*self, buf@, last as int) == r2);
            }
        }
        proof {
            if !stopped {
                assert(consume(fv, replay_of(*self, buf@, last as int), 0) == replay_of(*self, buf@, last as int));
            }
        }
        let ghost buf_v = buf@;
        let ghost ev0 = self.events@;
        self.events.push(BuildEvent::Token(kind, buf));
        proof {
            assert(event_views(self.events@) =~= event_views(ev0).push(EventView::Token(kind, buf_v)));
        }
        let ghost no_space = sink_state(*self);
        if last < len && last + 1 < len {
            proof {
                assert(fv[last as int] == flat_view(self.entries@[last as int]));
                assert(fv[last + 1] == flat_view(self.entries@[last + 1]));
            }
            if let Some(curr) = leaf_punct(&self.entries[last]) {
                if leaf_punct(&self.entries[last + 1]).is_some() && curr.spacing == Spacing::Alone
                    && curr.char != ';' {
                    proof {
                        assert(needs_space(fv, last as int));
                    }
                    if !self.advance(1) {
                        return false;
                    }
                    let mut space = String::new();
                    push_char(&mut space, ' ');
                    let ghost ev1 = self.events@;
                    self.events.push(BuildEvent::Token(SyntaxKind::Whitespace, space));
                    proof {
                        assert(space@ =~= seq![' ']);
                        assert(event_views(self.events@) =~= event_views(ev1).push(
                            EventView::Token(SyntaxKind::Whitespace, seq![' ']),
                        ));
                    }
                    return true;
                }
            }
        }
        proof {
            assert(!needs_space(fv, last as int));
        }
        true
    }
}

/// Replays `tt` through the parser's `steps`: each token step takes its
/// leaves from the tree, each node step opens or closes a node, each error is
/// placed at the current position. Returns the builder calls and a fresh map
/// from the tree's ids to positions in the text they spell, or `None` when
/// that text would not fit in `u32` positions.
pub fn token_tree_to_syntax_node(tt: &Subtree, steps: &Vec<Step>) -> (r: Option<(Parse, TokenMap)>)
    requires
        subtree_wf(*tt),
    ensures
        r is None <==> replay(flat_of(*tt), steps@, 0, replay_start()).pos > u32::MAX,
        r matches Some((parse, map)) ==> event_views(parse.events@) == replay(
            flat_of(*tt),
            steps@,
            0,
            replay_start(),
        ).events,
        r matches Some((parse, map)) ==> parse.text_len == replay(
            flat_of(*tt),
            steps@,
            0,
            replay_start(),
        ).pos,
        r matches Some((parse, map)) ==> map.entries@ == replay(flat_of(*tt), steps@, 0, replay_start()).entries,
        r matches Some((parse, map)) ==> map_within(map, parse.text_len),
        r matches Some((parse, map)) ==> forall|i: int|
            0 <= i < map.entries@.len() ==> #[trigger] token_from_leaf(map.entries@[i], tt.token_trees@),
{
    let entries = flatten(tt);
    let ghost flat = entries@;
    let ghost fv = flat_of(*tt);
    let ghost fin = replay(fv, steps@, 0, replay_start());
    let mut sink = TtTreeSink::new(entries);
    let mut i: usize = 0;
    while i < steps.len()
        invariant
            replay(fv, steps@, i as int, sink_state(sink)) == fin,
            fin == replay(flat_of(*tt), steps@, 0, replay_start()),
            fv == flat_of(*tt),
            fv == flat_views(sink.entries@),
            sink.wf(),
            sink.entries@ == flat,
            forall|j: int|
                0 <= j < flat.len() ==> (#[trigger] flat[j] matches FlatEntry::Leaf(l) ==> leaf_in_trees(
                    tt.token_trees@,
                    l,
                )),
        decreases steps@.len() - i,
    {
        let ghost s0 = sink_state(sink);
        let ghost ev0 = sink.events@;
        proof {
            assert(replay(fv, steps@, i as int, s0) == replay(fv, steps@, i + 1, replay_step(fv, s0, steps@[i as int])));
        }
        match &steps[i] {
            Step::Token { kind, n_input_tokens } => {
                let ok = sink.token(*kind, *n_input_tokens);
                proof {
                    assert(steps@[i as int] == Step::Token { kind: *kind, n_input_tokens: *n_input_tokens });
                    assert(replay_step(fv, s0, steps@[i as int]) == token_step(fv, s0, *kind, *n_input_tokens));
                }
                if !ok {
                    proof {
                        lemma_replay_grows(fv, steps@, i + 1, replay_step(fv, s0, steps@[i as int]));
                        assert(token_step(fv, s0, *kind, *n_input_tokens).pos > u32::MAX);
                        assert(fin.pos > u32::MAX);
                    }
                    return None;
                }
            },
            Step::Enter { kind } => {
                sink.events.push(BuildEvent::StartNode(*kind));
                proof {
                    assert(event_views(sink.events@) =~= event_views(ev0).push(EventView::StartNode(*kind)));
                }
            },
            Step::Exit => {
                sink.events.push(BuildEvent::FinishNode);
                proof {
                    assert(event_views(sink.events@) =~= event_views(ev0).push(EventView::FinishNode));
                }
            },
            Step::Error { msg } => {
                let m = msg.clone();
                sink.events.push(BuildEvent::Error(m, sink.text_pos));
                proof {
                    assert(event_views(sink.events@) =~= event_views(ev0).push(
                        EventView::Error(msg@, sink.text_pos),
                    ));
                }
            },
        }
        proof {
            assert(sink_state(sink) == replay_step(fv, s0, steps@[i as int]));
        }
        i = i + 1;
    }
    proof {
        assert forall|k: int| 0 <= k < sink.token_map.entries@.len() implies #[trigger] token_from_leaf(
            sink.token_map.entries@[k],
            tt.token_trees@,
        ) by {
            let e = sink.token_map.entries@[k];
            assert(token_from_flat(e, sink.entries@));
            if e.1 is Token {
                let j = choose|j: int|
                    0 <= j < sink.entries@.len() && (#[trigger] sink.entries@[j] matches FlatEntry::Leaf(l) && leaf_id(l) == e.0
                        && e.1->Token_0.spec_len() == leaf_len(l));
                let l = sink.entries@[j]->Leaf_0;
                assert(flat[j] == sink.entries@[j]);
                assert(leaf_in_trees(tt.token_trees@, l));
            }
        }
    }
    Some((Parse { events: sink.events, text_len: sink.text_pos }, sink.token_map))
}

} // verus!
