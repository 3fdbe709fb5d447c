//! Bookkeeping from token ids back to source ranges, and the allocator that
//! mints ids while filling it.
use vstd::prelude::*;
use crate::tt::{SyntheticTokenId, TextRange, TokenId};

verus! {

/// What a token id stands for in the source.
#[derive(Clone, Copy, Debug, PartialEq, Eq, Structural)]
pub enum TokenTextRange {
    Token(TextRange),
    Delimiter { open: TextRange, close: TextRange },
}

/// Maps token ids to ranges, to delimiter pairs, and to the tags of
/// injected tokens.
#[derive(Clone, Debug)]
pub struct TokenMap {
    pub entries: Vec<(TokenId, TokenTextRange)>,
    pub synthetic_entries: Vec<(TokenId, SyntheticTokenId)>,
}

/// The ids of `s` are strictly increasing, hence pairwise distinct.
pub open spec fn ids_increasing<T>(s: Seq<(TokenId, T)>) -> bool {
    forall|i: int, j: int| 0 <= i < j < s.len() ==> s[i].0.0 < s[j].0.0
}

pub open spec fn ids_below<T>(s: Seq<(TokenId, T)>, bound: u32) -> bool {
    forall|i: int| 0 <= i < s.len() ==> s[i].0.0 < bound
}

/// The range, or both ends of the pair, end at or before `limit`.
pub open spec fn range_ends_by(r: TokenTextRange, limit: int) -> bool {
    match r {
        TokenTextRange::Token(t) => t.end <= limit,
        TokenTextRange::Delimiter { open, close } => open.end <= limit && close.end <= limit,
    }
}

/// Every range that `entries` records ends at or before `limit`.
pub open spec fn entries_within(entries: Seq<(TokenId, TokenTextRange)>, limit: int) -> bool {
    forall|i: int| 0 <= i < entries.len() ==> #[trigger] range_ends_by(entries[i].1, limit)
}

pub proof fn lemma_within_changed(
    e0: Seq<(TokenId, TokenTextRange)>,
    e1: Seq<(TokenId, TokenTextRange)>,
    changed: int,
    limit: int,
)
    requires
        entries_within(e0, limit),
        e1.len() == e0.len() || e1.len() == e0.len() + 1,
        e1.len() == e0.len() + 1 ==> changed == e0.len(),
        forall|i: int| 0 <= i < e1.len() && i != changed ==> e1[i] == e0[i],
        0 <= changed < e1.len() ==> range_ends_by(e1[changed].1, limit),
    ensures
        entries_within(e1, limit),
{
    assert forall|i: int| 0 <= i < e1.len() implies #[trigger] range_ends_by(e1[i].1, limit) by {
        if i != changed {
            assert(range_ends_by(e0[i].1, limit));
        }
    }
}

pub proof fn lemma_within_remove(e0: Seq<(TokenId, TokenTextRange)>, k: int, limit: int)
    requires
        entries_within(e0, limit),
        0 <= k < e0.len(),
    ensures
        entries_within(e0.remove(k), limit),
{
    let e1 = e0.remove(k);
    assert forall|i: int| 0 <= i < e1.len() implies #[trigger] range_ends_by(e1[i].1, limit) by {
        if i < k {
            assert(range_ends_by(e0[i].1, limit));
        } else {
            assert(range_ends_by(e0[i + 1].1, limit));
        }
    }
}

/// A delimiter pair opens before it closes, unless it is still open, when
/// both ends are the opener.
pub open spec fn pair_ok(r: TokenTextRange) -> bool {
    match r {
        TokenTextRange::Delimiter { open, close } => open == close || open.end <= close.start,
        TokenTextRange::Token(_) => true,
    }
}

pub open spec fn pairs_ok(entries: Seq<(TokenId, TokenTextRange)>) -> bool {
    forall|i: int| 0 <= i < entries.len() ==> #[trigger] pair_ok(entries[i].1)
}

pub proof fn lemma_pairs_changed(
    e0: Seq<(TokenId, TokenTextRange)>,
    e1: Seq<(TokenId, TokenTextRange)>,
    changed: int,
)
    requires
        pairs_ok(e0),
        e1.len() == e0.len() || e1.len() == e0.len() + 1,
        e1.len() == e0.len() + 1 ==> changed == e0.len(),
        forall|i: int| 0 <= i < e1.len() && i != changed ==> e1[i] == e0[i],
        0 <= changed < e1.len() ==> pair_ok(e1[changed].1),
    ensures
        pairs_ok(e1),
{
    assert forall|i: int| 0 <= i < e1.len() implies #[trigger] pair_ok(e1[i].1) by {
        if i != changed {
            assert(pair_ok(e0[i].1));
        }
    }
}

pub proof fn lemma_pairs_remove(e0: Seq<(TokenId, TokenTextRange)>, k: int)
    requires
        pairs_ok(e0),
        0 <= k < e0.len(),
    ensures
        pairs_ok(e0.remove(k)),
{
    let e1 = e0.remove(k);
    assert forall|i: int| 0 <= i < e1.len() implies #[trigger] pair_ok(e1[i].1) by {
        if i < k {
            assert(pair_ok(e0[i].1));
        } else {
            assert(pair_ok(e0[i + 1].1));
        }
    }
}

impl TokenMap {
    pub fn new() -> (r: TokenMap)
        ensures
            r.entries@.len() == 0,
            r.synthetic_entries@.len() == 0,
    {
        TokenMap { entries: Vec::new(), synthetic_entries: Vec::new() }
    }

    /// Every id is recorded at most once in each relation, in increasing
    /// order, and below `next_id`.
    pub open spec fn ids_wf(&self, next_id: u32) -> bool {
        &&& ids_increasing(self.entries@)
        &&& ids_increasing(self.synthetic_entries@)
        &&& ids_below(self.entries@, next_id)
        &&& ids_below(self.synthetic_entries@, next_id)
    }

    /// The range recorded for `id`, if it is an ordinary token.
    pub fn range_by_token(&self, id: TokenId) -> (r: Option<TextRange>)
        ensures
            r matches Some(range) ==> exists|i: int|
                0 <= i < self.entries@.len() && self.entries@[i] == (
                id,
                TokenTextRange::Token(range),
            ),
            r is None ==> forall|i: int|
                0 <= i < self.entries@.len() ==> !(self.entries@[i].0 == id
                    && self.entries@[i].1 is Token),
    {
        let mut i: usize = 0;
        while i < self.entries.len()
            invariant
                i <= self.entries@.len(),
                forall|k: int|
                    0 <= k < i ==> !(self.entries@[k].0 == id && self.entries@[k].1 is Token),
            decreases self.entries@.len() - i,
        {
            let (eid, r) = self.entries[i];
            if eid == id {
                if let TokenTextRange::Token(range) = r {
                    return Some(range);
                }
            }
            i = i + 1;
        }
        None
    }

    /// The opening and closing ranges recorded for the delimiter `id`.
    pub fn delim_by_token(&self, id: TokenId) -> (r: Option<(TextRange, TextRange)>)
        ensures
            r matches Some(p) ==> exists|i: int|
                0 <= i < self.entries@.len() && self.entries@[i] == (
                id,
                TokenTextRange::Delimiter { open: p.0, close: p.1 },
            ),
            r is None ==> forall|i: int|
                0 <= i < self.entries@.len() ==> !(self.entries@[i].0 == id
                    && self.entries@[i].1 is Delimiter),
    {
        let mut i: usize = 0;
        while i < self.entries.len()
            invariant
                i <= self.entries@.len(),
                forall|k: int|
                    0 <= k < i ==> !(self.entries@[k].0 == id && self.entries@[k].1 is Delimiter),
            decreases self.entries@.len() - i,
        {
            let (eid, r) = self.entries[i];
            if eid == id {
                if let TokenTextRange::Delimiter { open, close } = r {
                    return Some((open, close));
                }
            }
            i = i + 1;
        }
        None
    }

    /// The tag recorded for `id`, if the token was injected.
    pub fn synthetic_token_id(&self, id: TokenId) -> (r: Option<SyntheticTokenId>)
        ensures
            r matches Some(t) ==> exists|i: int|
                0 <= i < self.synthetic_entries@.len() && self.synthetic_entries@[i] == (id, t),
            r is None ==> forall|i: int|
                0 <= i < self.synthetic_entries@.len() ==> self.synthetic_entries@[i].0 != id,
    {
        let mut i: usize = 0;
        while i < self.synthetic_entries.len()
            invariant
                i <= self.synthetic_entries@.len(),
                forall|k: int| 0 <= k < i ==> self.synthetic_entries@[k].0 != id,
            decreases self.synthetic_entries@.len() - i,
        {
            let (eid, t) = self.synthetic_entries[i];
            if eid == id {
                return Some(t);
            }
            i = i + 1;
        }
        None
    }
}

/// Mints token ids in increasing order and records their ranges, relative to
/// `global_offset`, in `map`.
pub struct TokenIdAlloc {
    pub map: TokenMap,
    pub global_offset: u32,
    pub next_id: u32,
}

impl TokenIdAlloc {
    pub open spec fn wf(&self) -> bool {
        self.map.ids_wf(self.next_id)
    }

    /// Records `range` (made relative) under a fresh id, and `synthetic_id`
    /// beside it when present.
    pub fn alloc_id(&mut self, absolute_range: TextRange, synthetic_id: Option<SyntheticTokenId>) -> (r:
        TokenId)
        requires
            old(self).wf(),
            old(self).next_id < u32::MAX,
            absolute_range.wf(),
            old(self).global_offset <= absolute_range.start,
        ensures
            final(self).wf(),
            r.0 == old(self).next_id,
            final(self).next_id == old(self).next_id + 1,
            final(self).global_offset == old(self).global_offset,
            final(self).map.entries@ == old(self).map.entries@.push(
                (r, TokenTextRange::Token(absolute_range.shifted(old(self).global_offset))),
            ),
            final(self).map.synthetic_entries@ == (match synthetic_id {
                Some(s) => old(self).map.synthetic_entries@.push((r, s)),
                None => old(self).map.synthetic_entries@,
            }),
    {
        let relative_range = absolute_range.shift_back(self.global_offset);
        let token_id = TokenId(self.next_id);
        self.next_id = self.next_id + 1;
        self.map.entries.push((token_id, TokenTextRange::Token(relative_range)));
        if let Some(id) = synthetic_id {
            self.map.synthetic_entries.push((token_id, id));
        }
        token_id
    }

    /// Mints an id for an opening delimiter and reserves its pair, with both
    /// ends at the opener for now; returns the id and the pair's slot.
    pub fn open_delim(&mut self, open_abs_range: TextRange) -> (r: (TokenId, usize))
        requires
            old(self).wf(),
            old(self).next_id < u32::MAX,
            open_abs_range.wf(),
            old(self).global_offset <= open_abs_range.start,
        ensures
            final(self).wf(),
            r.0.0 == old(self).next_id,
            r.1 == old(self).map.entries@.len(),
            final(self).next_id == old(self).next_id + 1,
            final(self).global_offset == old(self).global_offset,
            final(self).map.entries@ == old(self).map.entries@.push(
                (
                    r.0,
                    TokenTextRange::Delimiter {
                        open: open_abs_range.shifted(old(self).global_offset),
                        close: open_abs_range.shifted(old(self).global_offset),
                    },
                ),
            ),
            final(self).map.synthetic_entries@ == old(self).map.synthetic_entries@,
    {
        let token_id = TokenId(self.next_id);
        self.next_id = self.next_id + 1;
        let rel = open_abs_range.shift_back(self.global_offset);
        let idx = self.map.entries.len();
        self.map.entries.push((token_id, TokenTextRange::Delimiter { open: rel, close: rel }));
        (token_id, idx)
    }

    /// Finishes the pair in slot `idx`: records its closing range, or drops
    /// the pair when the delimiter was never closed.
    pub fn close_delim(&mut self, idx: usize, close_abs_range: Option<TextRange>)
        requires
            old(self).wf(),
            idx < old(self).map.entries@.len(),
            old(self).map.entries@[idx as int].1 is Delimiter,
            close_abs_range matches Some(c) ==> c.wf() && old(self).global_offset <= c.start,
        ensures
            final(self).wf(),
            final(self).next_id == old(self).next_id,
            final(self).global_offset == old(self).global_offset,
            final(self).map.synthetic_entries@ == old(self).map.synthetic_entries@,
            final(self).map.entries@ == (match close_abs_range {
                None => old(self).map.entries@.remove(idx as int),
                Some(c) => old(self).map.entries@.update(
                    idx as int,
                    (
                        old(self).map.entries@[idx as int].0,
                        TokenTextRange::Delimiter {
                            open: old(self).map.entries@[idx as int].1->open,
                            close: c.shifted(old(self).global_offset),
                        },
                    ),
                ),
            }),
    {
        match close_abs_range {
            None => {
                self.map.entries.remove(idx);
            },
            Some(close) => {
                let (id, r) = self.map.entries[idx];
                let open = match r {
                    TokenTextRange::Delimiter { open, .. } => open,
                    TokenTextRange::Token(t) => t,
                };
                let rel = close.shift_back(self.global_offset);
                self.map.entries.set(idx, (id, TokenTextRange::Delimiter { open, close: rel }));
            },
        }
    }
}

} // verus!
