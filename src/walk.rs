//! A syntax tree walked in pre-order as a token stream: injected tokens are
//! spliced in at node boundaries and multi-character puncts are split.
use vstd::prelude::*;
use vstd::string::*;
use crate::convert::{source_token_wf, source_wf, SourceToken, SyntaxKind};
use crate::tt::{is_ascii_char, push_char, SyntheticTokenId, TextRange};

verus! {

/// A token of a syntax tree.
#[derive(Clone, Debug)]
pub struct CstToken {
    pub kind: SyntaxKind,
    pub text: String,
    pub range: TextRange,
}

/// One event of a pre-order walk over a syntax tree; nodes are named by ids.
#[derive(Clone, Debug)]
pub enum WalkEvent {
    Enter(u32),
    Leave(u32),
    Token(CstToken),
}

/// A syntax node, given by its range and its pre-order walk, which enters
/// the node itself first and leaves it last.
pub struct SyntaxNode {
    pub range: TextRange,
    pub events: Vec<WalkEvent>,
}

/// A token that a caller injects at a node boundary.
#[derive(Clone, Debug)]
pub struct SyntheticToken {
    pub kind: SyntaxKind,
    pub text: String,
    pub range: TextRange,
    pub id: SyntheticTokenId,
}

pub open spec fn synthetic_as_source(t: SyntheticToken) -> SourceToken {
    SourceToken { kind: t.kind, text: t.text, range: t.range, synthetic_id: Some(t.id) }
}

/// What the walk needs of a token of the tree: a punct is ASCII, one byte per
/// character, and the other kinds are as the conversion needs them.
pub open spec fn cst_token_wf(t: CstToken) -> bool {
    &&& t.range.wf()
    &&& t.kind == SyntaxKind::Punct ==> t.text@.len() >= 1 && t.range.spec_len() == t.text@.len()
        && forall|k: int| 0 <= k < t.text@.len() ==> is_ascii_char(#[trigger] t.text@[k])
    &&& (t.kind == SyntaxKind::Ident || t.kind == SyntaxKind::Keyword || t.kind
        == SyntaxKind::Underscore) ==> t.text@.len() > 0
    &&& t.kind == SyntaxKind::LifetimeIdent ==> t.text@.len() >= 2 && t.text@[0] == '\''
        && t.range.spec_len() >= 1
}

pub open spec fn node_wf(n: SyntaxNode) -> bool {
    &&& n.range.wf()
    &&& forall|i: int| 0 <= i < n.events@.len() ==> (#[trigger] n.events@[i] matches WalkEvent::Token(t) ==> cst_token_wf(t))
}

/// Every injected token is fit for the conversion, with ranges past `offset`.
pub open spec fn synthetic_map_wf(m: Seq<(u32, Vec<SyntheticToken>)>, offset: u32) -> bool {
    forall|i: int, k: int| 0 <= i < m.len() && 0 <= k < m[i].1@.len() ==> #[trigger] source_token_wf(
        synthetic_as_source(m[i].1@[k]),
        offset,
    )
}

/// No node is keyed twice.
pub open spec fn keys_unique(m: Seq<(u32, Vec<SyntheticToken>)>) -> bool {
    forall|i: int, j: int| 0 <= i < j < m.len() ==> m[i].0 != m[j].0
}

pub open spec fn event_weight(e: WalkEvent) -> nat {
    match e {
        WalkEvent::Token(t) => t.text@.len() + 1,
        _ => 0,
    }
}

/// An upper bound on the tokens that the events from `i` on produce.
pub open spec fn events_weight(es: Seq<WalkEvent>, i: int) -> nat
    decreases es.len() - i,
{
    if i < 0 || i >= es.len() {
        0
    } else {
        event_weight(es[i]) + events_weight(es, i + 1)
    }
}

/// The number of tokens injected through `m`.
pub open spec fn synthetic_weight(m: Seq<(u32, Vec<SyntheticToken>)>) -> nat
    decreases m.len(),
{
    if m.len() == 0 {
        0
    } else {
        m[0].1@.len() + synthetic_weight(m.subrange(1, m.len() as int))
    }
}

/// An upper bound on the length of the stream that a walk produces.
pub open spec fn stream_bound(
    node: SyntaxNode,
    replace: Seq<(u32, Vec<SyntheticToken>)>,
    append: Seq<(u32, Vec<SyntheticToken>)>,
) -> nat {
    events_weight(node.events@, 0) + synthetic_weight(replace) + synthetic_weight(append)
}

proof fn lemma_events_weight_mono(es: Seq<WalkEvent>, i: int, j: int)
    requires
        0 <= i <= j,
    ensures
        events_weight(es, j) <= events_weight(es, i),
    decreases j - i,
{
    if i < j {
        lemma_events_weight_mono(es, i + 1, j);
    }
}

proof fn lemma_synthetic_weight_remove(m: Seq<(u32, Vec<SyntheticToken>)>, k: int)
    requires
        0 <= k < m.len(),
    ensures
        synthetic_weight(m) == synthetic_weight(m.remove(k)) + m[k].1@.len(),
    decreases m.len(),
{
    let rest = m.subrange(1, m.len() as int);
    if k == 0 {
        assert(m.remove(0) =~= rest);
    } else {
        lemma_synthetic_weight_remove(rest, k - 1);
        assert(rest.remove(k - 1) =~= m.remove(k).subrange(1, m.len() - 1));
        assert(m.remove(k)[0] == m[0]);
    }
}

/// What the conversion reads of a token: kind, text, range and tag.
pub type TokenView = (SyntaxKind, Seq<char>, TextRange, Option<SyntheticTokenId>);

pub open spec fn source_view(t: SourceToken) -> TokenView {
    (t.kind, t.text@, t.range, t.synthetic_id)
}

pub open spec fn views(ts: Seq<SourceToken>) -> Seq<TokenView> {
    ts.map_values(|t: SourceToken| source_view(t))
}

/// The injected tokens `v`, as the stream carries them.
pub open spec fn synthetic_views(v: Seq<SyntheticToken>) -> Seq<TokenView> {
    v.map_values(|t: SyntheticToken| (t.kind, t.text@, t.range, Some(t.id)))
}

/// The stream tokens of one token of the tree: a punct gives one token per
/// character, one byte each; any other token gives itself.
pub open spec fn cst_token_views(t: CstToken) -> Seq<TokenView> {
    if t.kind == SyntaxKind::Punct {
        Seq::new(
            t.text@.len(),
            |k: int|
                (
                    SyntaxKind::Punct,
                    seq![t.text@[k]],
                    TextRange { start: (t.range.start + k) as u32, end: (t.range.start + k + 1) as u32 },
                    None,
                ),
        )
    } else {
        seq![(t.kind, t.text@, t.range, None)]
    }
}

/// The index of the first entry of `m` from `i` on that is keyed by `node`.
pub open spec fn first_key(m: Seq<(u32, Vec<SyntheticToken>)>, node: u32, i: int) -> Option<int>
    decreases m.len() - i,
{
    if i < 0 || i >= m.len() {
        None
    } else if m[i].0 == node {
        Some(i)
    } else {
        first_key(m, node, i + 1)
    }
}

proof fn lemma_first_key_bounds(m: Seq<(u32, Vec<SyntheticToken>)>, node: u32, i: int)
    requires
        0 <= i,
    ensures
        first_key(m, node, i) matches Some(k) ==> i <= k < m.len() && m[k].0 == node,
    decreases m.len() - i,
{
    if i < m.len() && m[i].0 != node {
        lemma_first_key_bounds(m, node, i + 1);
    }
}

/// Where the subtree whose enter precedes `i` is left, with `depth` nested
/// subtrees still open; the end of the walk if it never is.
pub open spec fn skip_end(es: Seq<WalkEvent>, i: int, depth: nat) -> int
    decreases es.len() - i,
{
    if i < 0 || i >= es.len() {
        es.len() as int
    } else {
        match es[i] {
            WalkEvent::Enter(_) => skip_end(es, i + 1, depth + 1),
            WalkEvent::Leave(_) => if depth == 0 {
                i
            } else {
                skip_end(es, i + 1, (depth - 1) as nat)
            },
            WalkEvent::Token(_) => skip_end(es, i + 1, depth),
        }
    }
}

/// The stream that the walk from event `i` on produces, with the entries of
/// `rep` and `app` still unused; and what is left of the two maps.
pub open spec fn walk(
    es: Seq<WalkEvent>,
    i: int,
    range: TextRange,
    rep: Seq<(u32, Vec<SyntheticToken>)>,
    app: Seq<(u32, Vec<SyntheticToken>)>,
) -> (Seq<TokenView>, Seq<(u32, Vec<SyntheticToken>)>, Seq<(u32, Vec<SyntheticToken>)>)
    decreases es.len() - i,
{
    if i < 0 || i >= es.len() {
        (seq![], rep, app)
    } else {
        match es[i] {
            WalkEvent::Enter(id) => match first_key(rep, id, 0) {
                Some(k) => {
                    let j = skip_end(es, i + 1, 0);
                    if i < j <= es.len() {
                        let rest = walk(es, j, range, rep.remove(k), app);
                        (synthetic_views(rep[k].1@) + rest.0, rest.1, rest.2)
                    } else {
                        (seq![], rep, app)
                    }
                },
                None => walk(es, i + 1, range, rep, app),
            },
            WalkEvent::Leave(id) => match first_key(app, id, 0) {
                Some(k) => {
                    let rest = walk(es, i + 1, range, rep, app.remove(k));
                    (synthetic_views(app[k].1@) + rest.0, rest.1, rest.2)
                },
                None => walk(es, i + 1, range, rep, app),
            },
            WalkEvent::Token(t) => if range.contains_range(t.range) {
                let rest = walk(es, i + 1, range, rep, app);
                (cst_token_views(t) + rest.0, rest.1, rest.2)
            } else {
                (seq![], rep, app)
            },
        }
    }
}

/// With nothing to inject, the walk leaves both maps empty.
pub proof fn lemma_walk_empty_maps(es: Seq<WalkEvent>, i: int, range: TextRange)
    ensures
        walk(es, i, range, seq![], seq![]).1 == Seq::<(u32, Vec<SyntheticToken>)>::empty(),
        walk(es, i, range, seq![], seq![]).2 == Seq::<(u32, Vec<SyntheticToken>)>::empty(),
    decreases es.len() - i,
{
    let e: Seq<(u32, Vec<SyntheticToken>)> = seq![];
    if 0 <= i < es.len() {
        match es[i] {
            WalkEvent::Enter(id) => {
                assert(first_key(e, id, 0) is None);
                lemma_walk_empty_maps(es, i + 1, range);
            },
            WalkEvent::Leave(id) => {
                assert(first_key(e, id, 0) is None);
                lemma_walk_empty_maps(es, i + 1, range);
            },
            WalkEvent::Token(t) => {
                if range.contains_range(t.range) {
                    lemma_walk_empty_maps(es, i + 1, range);
                }
            },
        }
    }
}

/// Removes the first entry for `node` from `m` and hands back its tokens.
fn take_entry(m: &mut Vec<(u32, Vec<SyntheticToken>)>, node: u32) -> (r: Option<Vec<SyntheticToken>>)
    ensures
        r is None ==> final(m)@ == old(m)@ && forall|i: int| 0 <= i < old(m)@.len() ==> old(m)@[i].0 != node,
        r matches Some(v) ==> exists|i: int|
            0 <= i < old(m)@.len() && old(m)@[i].0 == node && old(m)@[i].1 == v && final(m)@
                == old(m)@.remove(i),
        r == (match first_key(old(m)@, node, 0) {
            Some(i) => Some(old(m)@[i].1),
            None => None,
        }),
        final(m)@ == (match first_key(old(m)@, node, 0) {
            Some(i) => old(m)@.remove(i),
            None => old(m)@,
        }),
{
    let mut i: usize = 0;
    while i < m.len()
        invariant
            i <= m@.len(),
            m@ == old(m)@,
            forall|k: int| 0 <= k < i ==> m@[k].0 != node,
            first_key(m@, node, 0) == first_key(m@, node, i as int),
        decreases m@.len() - i,
    {
        if m[i].0 == node {
            let (_, v) = m.remove(i);
            return Some(v);
        }
        i = i + 1;
    }
    None
}

proof fn lemma_take_keeps_wf(
    m0: Seq<(u32, Vec<SyntheticToken>)>,
    m1: Seq<(u32, Vec<SyntheticToken>)>,
    i: int,
    offset: u32,
)
    requires
        synthetic_map_wf(m0, offset),
        0 <= i < m0.len(),
        m1 == m0.remove(i),
    ensures
        synthetic_map_wf(m1, offset),
        synthetic_weight(m0) == synthetic_weight(m1) + m0[i].1@.len(),
        forall|k: int| 0 <= k < m0[i].1@.len() ==> #[trigger] source_token_wf(synthetic_as_source(m0[i].1@[k]), offset),
{
    lemma_synthetic_weight_remove(m0, i);
    assert forall|a: int, k: int| 0 <= a < m1.len() && 0 <= k < m1[a].1@.len() implies #[trigger] source_token_wf(
        synthetic_as_source(m1[a].1@[k]),
        offset,
    ) by {
        if a < i {
            assert(source_token_wf(synthetic_as_source(m0[a].1@[k]), offset));
        } else {
            assert(source_token_wf(synthetic_as_source(m0[a + 1].1@[k]), offset));
        }
    }
    assert forall|k: int| 0 <= k < m0[i].1@.len() implies #[trigger] source_token_wf(synthetic_as_source(m0[i].1@[k]), offset) by {
        assert(source_token_wf(synthetic_as_source(m0[i].1@[k]), offset));
    }
}

fn push_synthetic(out: &mut Vec<SourceToken>, v: &Vec<SyntheticToken>, Ghost(offset): Ghost<u32>)
    requires
        source_wf(old(out)@, offset),
        forall|k: int| 0 <= k < v@.len() ==> #[trigger] source_token_wf(synthetic_as_source(v@[k]), offset),
    ensures
        source_wf(final(out)@, offset),
        final(out)@.len() == old(out)@.len() + v@.len(),
        forall|i: int| 0 <= i < old(out)@.len() ==> final(out)@[i] == old(out)@[i],
        forall|i: int| old(out)@.len() <= i < final(out)@.len() ==> (#[trigger] final(out)@[i]).synthetic_id is Some,
        views(final(out)@) == views(old(out)@) + synthetic_views(v@),
{
    let mut k: usize = 0;
    while k < v.len()
        invariant
            k <= v@.len(),
            source_wf(out@, offset),
            out@.len() == old(out)@.len() + k,
            forall|j: int| 0 <= j < v@.len() ==> #[trigger] source_token_wf(synthetic_as_source(v@[j]), offset),
            forall|i: int| 0 <= i < old(out)@.len() ==> out@[i] == old(out)@[i],
            forall|i: int| old(out)@.len() <= i < out@.len() ==> (#[trigger] out@[i]).synthetic_id is Some,
            views(out@) == views(old(out)@) + synthetic_views(v@).take(k as int),
        decreases v@.len() - k,
    {
        let t = &v[k];
        assert(source_token_wf(synthetic_as_source(v@[k as int]), offset));
        let ghost o0 = out@;
        out.push(SourceToken { kind: t.kind, text: t.text.clone(), range: t.range, synthetic_id: Some(t.id) });
        proof {
            assert(views(out@) =~= views(o0).push(source_view(out@.last())));
            assert(synthetic_views(v@).take(k + 1) =~= synthetic_views(v@).take(k as int).push(
                synthetic_views(v@)[k as int],
            ));
        }
        k = k + 1;
    }
    proof {
        assert(synthetic_views(v@).take(v@.len() as int) =~= synthetic_views(v@));
    }
}

/// Every token of `ts` that comes from the tree lies within `range`.
pub open spec fn real_tokens_within(ts: Seq<SourceToken>, range: TextRange) -> bool {
    forall|i: int| 0 <= i < ts.len() && (#[trigger] ts[i]).synthetic_id is None ==> range.contains_range(ts[i].range)
}

pub open spec fn no_synthetic(ts: Seq<SourceToken>) -> bool {
    forall|i: int| 0 <= i < ts.len() ==> (#[trigger] ts[i]).synthetic_id is None
}

/// The token stream of `node`: its tokens in order, a punct split into one
/// token per character, the tokens of `replace` in place of the node they
/// are keyed by, and those of `append` after it. Each entry is used once
/// and removed; the stream ends at the first token outside the node's range.
pub fn cst_token_stream(
    node: &SyntaxNode,
    replace: &mut Vec<(u32, Vec<SyntheticToken>)>,
    append: &mut Vec<(u32, Vec<SyntheticToken>)>,
) -> (r: Vec<SourceToken>)
    requires
        node_wf(*node),
        synthetic_map_wf(old(replace)@, node.range.start),
        synthetic_map_wf(old(append)@, node.range.start),
    ensures
        views(r@) == walk(node.events@, 0, node.range, old(replace)@, old(append)@).0,
        final(replace)@ == walk(node.events@, 0, node.range, old(replace)@, old(append)@).1,
        final(append)@ == walk(node.events@, 0, node.range, old(replace)@, old(append)@).2,
        source_wf(r@, node.range.start),
        real_tokens_within(r@, node.range),
        old(replace)@.len() == 0 && old(append)@.len() == 0 ==> no_synthetic(r@),
        r@.len() <= stream_bound(*node, old(replace)@, old(append)@),
        final(replace)@.len() <= old(replace)@.len(),
        final(append)@.len() <= old(append)@.len(),
{
    let ghost offset = node.range.start;
    let ghost bound = stream_bound(*node, replace@, append@);
    let ghost es = node.events@;
    let ghost total = walk(es, 0, node.range, replace@, append@);
    let n = node.events.len();
    let mut out: Vec<SourceToken> = Vec::new();
    let mut i: usize = 0;
    let mut stopped = false;
    proof {
        assert(views(out@) =~= seq![]);
        assert(views(out@) + total.0 =~= total.0);
    }
    while i < n && !stopped
        invariant
            n == node.events@.len(),
            es == node.events@,
            i <= n,
            node_wf(*node),
            offset == node.range.start,
            source_wf(out@, offset),
            synthetic_map_wf(replace@, offset),
            synthetic_map_wf(append@, offset),
            out@.len() + events_weight(node.events@, i as int) + synthetic_weight(replace@)
                + synthetic_weight(append@) <= bound,
            replace@.len() <= old(replace)@.len(),
            append@.len() <= old(append)@.len(),
            real_tokens_within(out@, node.range),
            old(replace)@.len() == 0 && old(append)@.len() == 0 ==> no_synthetic(out@),
            total == walk(es, 0, node.range, old(replace)@, old(append)@),
            views(out@) + walk(es, i as int, node.range, replace@, append@).0 == total.0,
            walk(es, i as int, node.range, replace@, append@).1 == total.1,
            walk(es, i as int, node.range, replace@, append@).2 == total.2,
            stopped ==> walk(es, i as int, node.range, replace@, append@) == (
                Seq::<TokenView>::empty(),
                replace@,
                append@,
            ),
        decreases (n - i) * 2 + (if stopped {
            0int
        } else {
            1int
        }),
    {
        let ghost i0 = i as int;
        let ghost o0 = out@;
        let ghost r0 = replace@;
        let ghost a0 = append@;
        let ghost w0 = walk(es, i0, node.range, r0, a0);
        assert(events_weight(node.events@, i0) == event_weight(node.events@[i0]) + events_weight(
            node.events@,
            i0 + 1,
        ));
        match &node.events[i] {
            WalkEvent::Enter(id) => {
                i = i + 1;
                let ghost m0 = replace@;
                proof {
                    lemma_first_key_bounds(m0, *id, 0);
                }
                if let Some(v) = take_entry(replace, *id) {
                    proof {
                        let k = choose|k: int|
                            0 <= k < m0.len() && m0[k].0 == *id && m0[k].1 == v && replace@ == m0.remove(k);
                        lemma_take_keeps_wf(m0, replace@, k, offset);
                    }
                    let mut depth: usize = 0;
                    let mut found = false;
                    while i < n && !found
                        invariant
                            n == node.events@.len(),
                            es == node.events@,
                            i0 < i <= n,
                            depth <= i,
                            skip_end(es, i as int, depth as nat) == skip_end(es, i0 + 1, 0),
                            found ==> skip_end(es, i as int, depth as nat) == i,
                        decreases (n - i) * 2 + (if found {
                            0int
                        } else {
                            1int
                        }),
                    {
                        match &node.events[i] {
                            WalkEvent::Enter(_) => {
                                depth = depth + 1;
                                i = i + 1;
                            },
                            WalkEvent::Leave(_) => {
                                if depth == 0 {
                                    found = true;
                                } else {
                                    depth = depth - 1;
                                    i = i + 1;
                                }
                            },
                            WalkEvent::Token(_) => {
                                i = i + 1;
                            },
                        }
                    }
                    proof {
                        lemma_events_weight_mono(node.events@, i0 + 1, i as int);
                        assert(i == skip_end(es, i0 + 1, 0));
                    }
                    push_synthetic(&mut out, &v, Ghost(offset));
                    proof {
                        let k = first_key(m0, *id, 0)->Some_0;
                        assert(v == m0[k].1);
                        assert(views(out@) + walk(es, i as int, node.range, replace@, append@).0 =~= views(o0) + w0.0);
                    }
                }
            },
            WalkEvent::Leave(id) => {
                i = i + 1;
                let ghost m0 = append@;
                proof {
                    lemma_first_key_bounds(m0, *id, 0);
                }
                if let Some(v) = take_entry(append, *id) {
                    proof {
                        let k = choose|k: int|
                            0 <= k < m0.len() && m0[k].0 == *id && m0[k].1 == v && append@ == m0.remove(k);
                        lemma_take_keeps_wf(m0, append@, k, offset);
                    }
                    push_synthetic(&mut out, &v, Ghost(offset));
                    proof {
                        let k = first_key(m0, *id, 0)->Some_0;
                        assert(v == m0[k].1);
                        assert(views(out@) + walk(es, i as int, node.range, replace@, append@).0 =~= views(o0) + w0.0);
                    }
                }
            },
            WalkEvent::Token(t) => {
                if !(node.range.start <= t.range.start && t.range.end <= node.range.end) {
                    stopped = true;
                } else {
                    assert(cst_token_wf(*t));
                    i = i + 1;
                    if t.kind == SyntaxKind::Punct {
                        let len = t.text.as_str().unicode_len();
                        let ghost ol = out@.len();
                        let mut k: usize = 0;
                        while k < len
                            invariant
                                len == t.text@.len(),
                                k <= len,
                                cst_token_wf(*t),
                                t.kind == SyntaxKind::Punct,
                                node.range.start <= t.range.start,
                                source_wf(out@, offset),
                                offset == node.range.start,
                                out@.len() == ol + k,
                                real_tokens_within(out@, node.range),
                                node.range.contains_range(t.range),
                                old(replace)@.len() == 0 && old(append)@.len() == 0 ==> no_synthetic(out@),
                                views(out@) == views(o0) + cst_token_views(*t).take(k as int),
                            decreases len - k,
                        {
                            let c = t.text.as_str().get_char(k);
                            assert(is_ascii_char(t.text@[k as int]));
                            let mut text = String::new();
                            push_char(&mut text, c);
                            let start = t.range.start + k as u32;
                            let ghost before = out@;
                            out.push(
                                SourceToken {
                                    kind: SyntaxKind::Punct,
                                    text,
                                    range: TextRange { start, end: start + 1 },
                                    synthetic_id: None,
                                },
                            );
                            proof {
                                assert(text@ =~= seq![t.text@[k as int]]);
                                assert(views(out@) =~= views(before).push(source_view(out@.last())));
                                assert(cst_token_views(*t).take(k + 1) =~= cst_token_views(*t).take(
                                    k as int,
                                ).push(cst_token_views(*t)[k as int]));
                            }
                            k = k + 1;
                        }
                        proof {
                            assert(cst_token_views(*t).take(len as int) =~= cst_token_views(*t));
                        }
                    } else {
                        out.push(
                            SourceToken {
                                kind: t.kind,
                                text: t.text.clone(),
                                range: t.range,
                                synthetic_id: None,
                            },
                        );
                        proof {
                            assert(views(out@) =~= views(o0).push(source_view(out@.last())));
                        }
                    }
                    proof {
                        assert(views(out@) + walk(es, i as int, node.range, replace@, append@).0 =~= views(o0) + w0.0);
                    }
                }
            },
        }
    }
    proof {
        assert(views(out@) =~= views(out@) + walk(es, i as int, node.range, replace@, append@).0);
    }
    out
}


proof fn lemma_first_key_none(m: Seq<(u32, Vec<SyntheticToken>)>, node: u32, i: int)
    requires
        0 <= i,
    ensures
        first_key(m, node, i) is None <==> forall|j: int| i <= j < m.len() ==> m[j].0 != node,
    decreases m.len() - i,
{
    if i < m.len() {
        lemma_first_key_none(m, node, i + 1);
    }
}

proof fn lemma_remove_keeps_absent(m: Seq<(u32, Vec<SyntheticToken>)>, j: int, node: u32)
    requires
        0 <= j < m.len(),
        forall|i: int| 0 <= i < m.len() ==> m[i].0 != node,
    ensures
        forall|i: int| 0 <= i < m.remove(j).len() ==> m.remove(j)[i].0 != node,
{
    assert forall|i: int| 0 <= i < m.remove(j).len() implies m.remove(j)[i].0 != node by {
        if i < j {
            assert(m.remove(j)[i] == m[i]);
        } else {
            assert(m.remove(j)[i] == m[i + 1]);
        }
    }
}

/// A node that no entry of `app` is keyed by stays so: the walk only uses
/// entries up.
proof fn lemma_walk_keeps_absent(
    es: Seq<WalkEvent>,
    i: int,
    range: TextRange,
    rep: Seq<(u32, Vec<SyntheticToken>)>,
    app: Seq<(u32, Vec<SyntheticToken>)>,
    node: u32,
)
    requires
        forall|j: int| 0 <= j < app.len() ==> app[j].0 != node,
    ensures
        forall|j: int|
            0 <= j < walk(es, i, range, rep, app).2.len() ==> walk(es, i, range, rep, app).2[j].0
                != node,
    decreases es.len() - i,
{
    if 0 <= i < es.len() {
        match es[i] {
            WalkEvent::Enter(id) => {
                lemma_first_key_bounds(rep, id, 0);
                match first_key(rep, id, 0) {
                    Some(k) => {
                        let j = skip_end(es, i + 1, 0);
                        if i < j <= es.len() {
                            lemma_walk_keeps_absent(es, j, range, rep.remove(k), app, node);
                            assert(walk(es, i, range, rep, app).2 == walk(es, j, range, rep.remove(k), app).2);
                        }
                    },
                    None => {
                        lemma_walk_keeps_absent(es, i + 1, range, rep, app, node);
                        assert(walk(es, i, range, rep, app).2 == walk(es, i + 1, range, rep, app).2);
                    },
                }
            },
            WalkEvent::Leave(id) => {
                lemma_first_key_bounds(app, id, 0);
                match first_key(app, id, 0) {
                    Some(k) => {
                        lemma_remove_keeps_absent(app, k, node);
                        lemma_walk_keeps_absent(es, i + 1, range, rep, app.remove(k), node);
                        assert(walk(es, i, range, rep, app).2 == walk(es, i + 1, range, rep, app.remove(k)).2);
                    },
                    None => {
                        lemma_walk_keeps_absent(es, i + 1, range, rep, app, node);
                        assert(walk(es, i, range, rep, app).2 == walk(es, i + 1, range, rep, app).2);
                    },
                }
            },
            WalkEvent::Token(t) => {
                if range.contains_range(t.range) {
                    lemma_walk_keeps_absent(es, i + 1, range, rep, app, node);
                    assert(walk(es, i, range, rep, app).2 == walk(es, i + 1, range, rep, app).2);
                }
            },
        }
    }
}

proof fn lemma_remove_keeps_unique(m: Seq<(u32, Vec<SyntheticToken>)>, j: int)
    requires
        0 <= j < m.len(),
        keys_unique(m),
    ensures
        keys_unique(m.remove(j)),
        forall|i: int| 0 <= i < m.remove(j).len() ==> m.remove(j)[i].0 != m[j].0,
{
    let r = m.remove(j);
    assert forall|a: int, b: int| 0 <= a < b < r.len() implies r[a].0 != r[b].0 by {
        let a0 = if a < j { a } else { a + 1 };
        let b0 = if b < j { b } else { b + 1 };
        assert(r[a] == m[a0] && r[b] == m[b0]);
    }
    assert forall|i: int| 0 <= i < r.len() implies r[i].0 != m[j].0 by {
        let i0 = if i < j { i } else { i + 1 };
        assert(r[i] == m[i0]);
    }
}

/// Every token event of `es` lies within `range`.
pub open spec fn tokens_in_range(es: Seq<WalkEvent>, range: TextRange) -> bool {
    forall|i: int| 0 <= i < es.len() ==> (#[trigger] es[i] matches WalkEvent::Token(t) ==> range.contains_range(t.range))
}

proof fn lemma_append_used_from(
    es: Seq<WalkEvent>,
    i: int,
    range: TextRange,
    app: Seq<(u32, Vec<SyntheticToken>)>,
    node: u32,
    p: int,
)
    requires
        0 <= i <= p < es.len(),
        es[p] == WalkEvent::Leave(node),
        tokens_in_range(es, range),
        keys_unique(app),
    ensures
        first_key(walk(es, i, range, seq![], app).2, node, 0) is None,
    decreases p - i,
{
    let rep: Seq<(u32, Vec<SyntheticToken>)> = seq![];
    match es[i] {
        WalkEvent::Enter(id) => {
            assert(first_key(rep, id, 0) is None);
            lemma_append_used_from(es, i + 1, range, app, node, p);
            assert(walk(es, i, range, rep, app).2 == walk(es, i + 1, range, rep, app).2);
        },
        WalkEvent::Leave(id) => {
            lemma_first_key_bounds(app, id, 0);
            match first_key(app, id, 0) {
                Some(k) => {
                    lemma_remove_keeps_unique(app, k);
                    assert(walk(es, i, range, rep, app).2 == walk(es, i + 1, range, rep, app.remove(k)).2);
                    if i == p {
                        lemma_walk_keeps_absent(es, i + 1, range, rep, app.remove(k), node);
                        lemma_first_key_none(walk(es, i + 1, range, rep, app.remove(k)).2, node, 0);
                    } else {
                        lemma_append_used_from(es, i + 1, range, app.remove(k), node, p);
                    }
                },
                None => {
                    assert(walk(es, i, range, rep, app).2 == walk(es, i + 1, range, rep, app).2);
                    if i == p {
                        lemma_first_key_none(app, node, 0);
                        lemma_walk_keeps_absent(es, i + 1, range, rep, app, node);
                        lemma_first_key_none(walk(es, i + 1, range, rep, app).2, node, 0);
                    } else {
                        lemma_append_used_from(es, i + 1, range, app, node, p);
                    }
                },
            }
        },
        WalkEvent::Token(t) => {
            assert(range.contains_range(t.range));
            lemma_append_used_from(es, i + 1, range, app, node, p);
            assert(walk(es, i, range, rep, app).2 == walk(es, i + 1, range, rep, app).2);
        },
    }
}

/// With no node replaced and every token inside the walked node, an entry of
/// `app` keyed by a node that the walk leaves is used up: none for that node
/// is left afterwards. So when every key names a node of the walk, nothing is
/// left of `app`.
pub proof fn lemma_append_exhausted(
    es: Seq<WalkEvent>,
    range: TextRange,
    app: Seq<(u32, Vec<SyntheticToken>)>,
    node: u32,
    p: int,
)
    requires
        0 <= p < es.len(),
        es[p] == WalkEvent::Leave(node),
        tokens_in_range(es, range),
        keys_unique(app),
    ensures
        first_key(walk(es, 0, range, seq![], app).2, node, 0) is None,
{
    lemma_append_used_from(es, 0, range, app, node, p);
}

} // verus!
