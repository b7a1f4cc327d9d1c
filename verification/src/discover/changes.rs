//! The announcements of discovery and the sequences they are computed from.

use vstd::prelude::*;

use crate::discover::server::{LiteServer, LiteServerId, LiteServerIdView, LiteServerView};

verus! {

/// An announcement to the consumer of discovery: a liteserver appeared under a key,
/// or the liteserver under a key disappeared.
#[derive(Debug, PartialEq, Eq)]
pub enum Change {
    Insert(LiteServerId, LiteServer),
    Remove(LiteServerId),
}

/// The mathematical value of a [`Change`].
pub enum ChangeView {
    Insert(LiteServerIdView, LiteServerView),
    Remove(LiteServerIdView),
}

impl View for Change {
    type V = ChangeView;

    open spec fn view(&self) -> ChangeView {
        match self {
            Change::Insert(id, ls) => ChangeView::Insert(id@, ls@),
            Change::Remove(id) => ChangeView::Remove(id@),
        }
    }
}

/// The values of a sequence of liteservers.
pub open spec fn server_views(s: Seq<LiteServer>) -> Seq<LiteServerView> {
    s.map_values(|x: LiteServer| x@)
}

/// The values of a sequence of changes.
pub open spec fn change_views(s: Seq<Change>) -> Seq<ChangeView> {
    s.map_values(|c: Change| c@)
}

/// `s` with every value kept at its first occurrence only.
pub open spec fn dedup(s: Seq<LiteServerView>) -> Seq<LiteServerView>
    decreases s.len(),
{
    if s.len() == 0 {
        Seq::empty()
    } else {
        let d = dedup(s.drop_last());
        if d.contains(s.last()) {
            d
        } else {
            d.push(s.last())
        }
    }
}

/// A removal, in the order of `known`, of each known liteserver that `fresh` lacks.
pub open spec fn removals(known: Seq<LiteServerView>, fresh: Seq<LiteServerView>) -> Seq<ChangeView>
    decreases known.len(),
{
    if known.len() == 0 {
        Seq::empty()
    } else {
        let r = removals(known.drop_last(), fresh);
        if fresh.contains(known.last()) {
            r
        } else {
            r.push(ChangeView::Remove(known.last().id))
        }
    }
}

/// An insertion, in the order of `fresh`, of each fresh liteserver that `known` lacks.
pub open spec fn insertions(known: Seq<LiteServerView>, fresh: Seq<LiteServerView>) -> Seq<ChangeView>
    decreases fresh.len(),
{
    if fresh.len() == 0 {
        Seq::empty()
    } else {
        let r = insertions(known, fresh.drop_last());
        if known.contains(fresh.last()) {
            r
        } else {
            r.push(ChangeView::Insert(fresh.last().id, fresh.last()))
        }
    }
}

/// What a tick announces when the known liteservers are `known` and the new
/// configuration resolves to `fresh`: all removals, then all insertions.
pub open spec fn discovery_changes(known: Seq<LiteServerView>, fresh: Seq<LiteServerView>) -> Seq<ChangeView> {
    removals(known, fresh) + insertions(known, fresh)
}

/// What discovery knows after the ticks `ticks`, each the resolved liteservers of
/// one configuration, starting from knowing nothing.
pub open spec fn known_after(ticks: Seq<Seq<LiteServerView>>) -> Seq<LiteServerView> {
    if ticks.len() == 0 {
        Seq::empty()
    } else {
        dedup(ticks.last())
    }
}

/// Everything announced over the ticks `ticks`, in order, starting from knowing nothing.
pub open spec fn announced(ticks: Seq<Seq<LiteServerView>>) -> Seq<ChangeView>
    decreases ticks.len(),
{
    if ticks.len() == 0 {
        Seq::empty()
    } else {
        announced(ticks.drop_last()) + discovery_changes(known_after(ticks.drop_last()), dedup(ticks.last()))
    }
}

} // verus!

verus! {

/// Keeping first occurrences leaves no value twice.
pub proof fn lemma_dedup_no_duplicates(s: Seq<LiteServerView>)
    ensures
        dedup(s).no_duplicates(),
    decreases s.len(),
{
    if s.len() > 0 {
        lemma_dedup_no_duplicates(s.drop_last());
    }
}

/// Keeping first occurrences keeps every value.
pub proof fn lemma_dedup_same_members(s: Seq<LiteServerView>)
    ensures
        forall|x: LiteServerView| dedup(s).contains(x) <==> s.contains(x),
    decreases s.len(),
{
    if s.len() > 0 {
        let p = s.drop_last();
        lemma_dedup_same_members(p);
        let dp = dedup(p);
        assert forall|x: LiteServerView| dedup(s).contains(x) <==> s.contains(x) by {
            if s.contains(x) {
                let i = choose|i: int| 0 <= i < s.len() && s[i] == x;
                if i < s.len() - 1 {
                    assert(p[i] == x);
                    assert(p.contains(x));
                    assert(dp.contains(x));
                    let j = choose|j: int| 0 <= j < dp.len() && dp[j] == x;
                    if !dp.contains(s.last()) {
                        assert(dp.push(s.last())[j] == x);
                    }
                    assert(dedup(s)[j] == x);
                } else {
                    assert(x == s.last());
                    if dp.contains(x) {
                        let j = choose|j: int| 0 <= j < dp.len() && dp[j] == x;
                        assert(dedup(s)[j] == x);
                    } else {
                        assert(dedup(s)[dp.len() as int] == x);
                    }
                }
                assert(dedup(s).contains(x));
            }
            if dedup(s).contains(x) {
                if dp.contains(x) {
                    assert(p.contains(x));
                    let j = choose|j: int| 0 <= j < p.len() && p[j] == x;
                    assert(s[j] == x);
                } else {
                    let j = choose|j: int| 0 <= j < dedup(s).len() && dedup(s)[j] == x;
                    if j < dp.len() {
                        assert(dp[j] == x);
                    }
                    assert(s[s.len() - 1] == x);
                }
                assert(s.contains(x));
            }
        }
    }
}

} // verus!
