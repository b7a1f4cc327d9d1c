//! What the announcements of discovery promise to the consumer that follows them.

use vstd::prelude::*;

use crate::discover::changes::{
    announced, dedup, known_after, discovery_changes, insertions, lemma_dedup_no_duplicates, lemma_dedup_same_members, removals,
    ChangeView,
};
use crate::discover::server::{LiteServerIdView, LiteServerView};

verus! {

/// A consumer's table of liteservers, keyed by identifier, after it has taken in `c`:
/// an insertion sets the entry of its key, a removal drops the entry of its key.
pub open spec fn apply_change(
    m: Map<LiteServerIdView, LiteServerView>,
    c: ChangeView,
) -> Map<LiteServerIdView, LiteServerView> {
    match c {
        ChangeView::Insert(id, ls) => m.insert(id, ls),
        ChangeView::Remove(id) => m.remove(id),
    }
}

/// The table after taking in `cs` in order.
pub open spec fn apply_changes(
    m: Map<LiteServerIdView, LiteServerView>,
    cs: Seq<ChangeView>,
) -> Map<LiteServerIdView, LiteServerView>
    decreases cs.len(),
{
    if cs.len() == 0 {
        m
    } else {
        apply_change(apply_changes(m, cs.drop_last()), cs.last())
    }
}

/// The table that holds each liteserver of `s` under its identifier.
pub open spec fn registry_of(s: Seq<LiteServerView>) -> Map<LiteServerIdView, LiteServerView>
    decreases s.len(),
{
    if s.len() == 0 {
        Map::empty()
    } else {
        registry_of(s.drop_last()).insert(s.last().id, s.last())
    }
}

/// No two positions of `s` hold liteservers with the same identifier.
pub open spec fn ids_distinct(s: Seq<LiteServerView>) -> bool {
    forall|i: int, j: int|
        0 <= i < s.len() && 0 <= j < s.len() && #[trigger] s[i].id == #[trigger] s[j].id ==> i == j
}

/// Whether `k` is the identifier of a known liteserver that the fresh set lacks.
pub open spec fn is_removed_id(known: Seq<LiteServerView>, fresh: Seq<LiteServerView>, k: LiteServerIdView) -> bool {
    exists|i: int| 0 <= i < known.len() && !fresh.contains(known[i]) && known[i].id == k
}

/// The identifiers of the known liteservers that the fresh set lacks.
pub open spec fn removed_ids(known: Seq<LiteServerView>, fresh: Seq<LiteServerView>) -> Set<LiteServerIdView> {
    Set::new(|k: LiteServerIdView| is_removed_id(known, fresh, k))
}

/// Whether `k` is the identifier of a fresh liteserver that was not known.
pub open spec fn is_inserted_id(known: Seq<LiteServerView>, fresh: Seq<LiteServerView>, k: LiteServerIdView) -> bool {
    exists|j: int| 0 <= j < fresh.len() && !known.contains(fresh[j]) && fresh[j].id == k
}

proof fn lemma_apply_push(m: Map<LiteServerIdView, LiteServerView>, cs: Seq<ChangeView>, c: ChangeView)
    ensures
        apply_changes(m, cs.push(c)) == apply_change(apply_changes(m, cs), c),
{
    assert(cs.push(c).drop_last() =~= cs);
}

/// Taking in two runs of changes one after the other is taking in their concatenation.
pub proof fn lemma_apply_concat(
    m: Map<LiteServerIdView, LiteServerView>,
    a: Seq<ChangeView>,
    b: Seq<ChangeView>,
)
    ensures
        apply_changes(m, a + b) == apply_changes(apply_changes(m, a), b),
    decreases b.len(),
{
    if b.len() == 0 {
        assert(a + b =~= a);
    } else {
        lemma_apply_concat(m, a, b.drop_last());
        assert((a + b).drop_last() =~= a + b.drop_last());
        assert((a + b).last() == b.last());
    }
}

proof fn lemma_registry_dom(s: Seq<LiteServerView>)
    ensures
        forall|k: LiteServerIdView|
            registry_of(s).contains_key(k) ==> exists|i: int| 0 <= i < s.len() && s[i].id == k,
        forall|i: int| 0 <= i < s.len() ==> registry_of(s).contains_key(#[trigger] s[i].id),
    decreases s.len(),
{
    if s.len() > 0 {
        let p = s.drop_last();
        lemma_registry_dom(p);
        assert forall|k: LiteServerIdView| registry_of(s).contains_key(k) implies exists|i: int|
            0 <= i < s.len() && s[i].id == k by {
            if k == s.last().id {
                assert(s[s.len() - 1].id == k);
            } else {
                assert(registry_of(p).contains_key(k));
                let i = choose|i: int| 0 <= i < p.len() && p[i].id == k;
                assert(s[i].id == k);
            }
        }
        assert forall|i: int| 0 <= i < s.len() implies registry_of(s).contains_key(#[trigger] s[i].id) by {
            if i < s.len() - 1 {
                assert(p[i] == s[i]);
                assert(registry_of(p).contains_key(p[i].id));
            }
        }
    }
}

proof fn lemma_registry_value(s: Seq<LiteServerView>)
    requires
        ids_distinct(s),
    ensures
        forall|i: int| 0 <= i < s.len() ==> registry_of(s)[#[trigger] s[i].id] == s[i],
    decreases s.len(),
{
    if s.len() > 0 {
        let p = s.drop_last();
        assert(ids_distinct(p)) by {
            assert forall|i: int, j: int|
                0 <= i < p.len() && 0 <= j < p.len() && #[trigger] p[i].id == #[trigger] p[j].id implies i == j by {
                assert(s[i].id == s[j].id);
            }
        }
        lemma_registry_value(p);
        assert forall|i: int| 0 <= i < s.len() implies registry_of(s)[#[trigger] s[i].id] == s[i] by {
            if i < s.len() - 1 {
                assert(p[i] == s[i]);
                assert(s[i].id != s[s.len() - 1].id);
            }
        }
    }
}

proof fn lemma_apply_removals(
    m: Map<LiteServerIdView, LiteServerView>,
    known: Seq<LiteServerView>,
    fresh: Seq<LiteServerView>,
)
    ensures
        apply_changes(m, removals(known, fresh)) == m.remove_keys(removed_ids(known, fresh)),
    decreases known.len(),
{
    if known.len() == 0 {
        assert(removed_ids(known, fresh) =~= Set::empty());
        assert(m.remove_keys(Set::empty()) =~= m);
    } else {
        let p = known.drop_last();
        let x = known.last();
        lemma_apply_removals(m, p, fresh);
        let rp = removed_ids(p, fresh);
        let rk = removed_ids(known, fresh);
        assert forall|k: LiteServerIdView| rk.contains(k) <==> (rp.contains(k) || (!fresh.contains(x) && k == x.id)) by {
            if rk.contains(k) {
                let i = choose|i: int| 0 <= i < known.len() && !fresh.contains(known[i]) && known[i].id == k;
                if i < known.len() - 1 {
                    assert(p[i] == known[i]);
                    assert(rp.contains(k));
                }
            }
            if rp.contains(k) {
                let i = choose|i: int| 0 <= i < p.len() && !fresh.contains(p[i]) && p[i].id == k;
                assert(known[i] == p[i]);
                assert(rk.contains(k));
            }
            if !fresh.contains(x) && k == x.id {
                assert(known[known.len() - 1] == x);
                assert(rk.contains(k));
            }
        }
        if fresh.contains(x) {
            assert(rk =~= rp);
        } else {
            lemma_apply_push(m, removals(p, fresh), ChangeView::Remove(x.id));
            assert(rk =~= rp.insert(x.id));
            assert(m.remove_keys(rp).remove(x.id) =~= m.remove_keys(rk));
        }
    }
}

proof fn lemma_apply_insertions(
    m: Map<LiteServerIdView, LiteServerView>,
    known: Seq<LiteServerView>,
    fresh: Seq<LiteServerView>,
)
    requires
        ids_distinct(fresh),
    ensures
        forall|k: LiteServerIdView|
            #![trigger apply_changes(m, insertions(known, fresh)).contains_key(k)]
            apply_changes(m, insertions(known, fresh)).contains_key(k) <==> (m.contains_key(k)
                || is_inserted_id(known, fresh, k)),
        forall|k: LiteServerIdView|
            #![trigger apply_changes(m, insertions(known, fresh))[k]]
            m.contains_key(k) && !is_inserted_id(known, fresh, k) ==> apply_changes(
                m,
                insertions(known, fresh),
            )[k] == m[k],
        forall|j: int|
            0 <= j < fresh.len() && !known.contains(fresh[j]) ==> apply_changes(
                m,
                insertions(known, fresh),
            )[#[trigger] fresh[j].id] == fresh[j],
    decreases fresh.len(),
{
    if fresh.len() > 0 {
        let p = fresh.drop_last();
        let y = fresh.last();
        assert(ids_distinct(p)) by {
            assert forall|i: int, j: int|
                0 <= i < p.len() && 0 <= j < p.len() && #[trigger] p[i].id == #[trigger] p[j].id implies i == j by {
                assert(fresh[i].id == fresh[j].id);
            }
        }
        lemma_apply_insertions(m, known, p);
        let rp = apply_changes(m, insertions(known, p));
        let r = apply_changes(m, insertions(known, fresh));
        assert forall|k: LiteServerIdView|
            is_inserted_id(known, fresh, k) <==> (is_inserted_id(known, p, k) || (!known.contains(y) && k == y.id)) by {
            if is_inserted_id(known, fresh, k) {
                let j = choose|j: int| 0 <= j < fresh.len() && !known.contains(fresh[j]) && fresh[j].id == k;
                if j < fresh.len() - 1 {
                    assert(p[j] == fresh[j]);
                    assert(is_inserted_id(known, p, k));
                }
            }
            if is_inserted_id(known, p, k) {
                let j = choose|j: int| 0 <= j < p.len() && !known.contains(p[j]) && p[j].id == k;
                assert(fresh[j] == p[j]);
                assert(is_inserted_id(known, fresh, k));
            }
            if !known.contains(y) && k == y.id {
                assert(fresh[fresh.len() - 1] == y);
                assert(is_inserted_id(known, fresh, k));
            }
        }
        if known.contains(y) {
            assert(r == rp);
            assert forall|k: LiteServerIdView| r.contains_key(k) <==> (m.contains_key(k) || is_inserted_id(known, fresh, k)) by {
                assert(rp.contains_key(k) <==> (m.contains_key(k) || is_inserted_id(known, p, k)));
            }
            assert forall|k: LiteServerIdView| m.contains_key(k) && !is_inserted_id(known, fresh, k) implies r[k] == m[k] by {
                assert(!is_inserted_id(known, p, k));
                assert(rp[k] == m[k]);
            }
            assert forall|j: int|
                0 <= j < fresh.len() && !known.contains(fresh[j]) implies r[#[trigger] fresh[j].id] == fresh[j] by {
                assert(j < fresh.len() - 1);
                assert(p[j] == fresh[j]);
                assert(rp[p[j].id] == p[j]);
            }
        } else {
            lemma_apply_push(m, insertions(known, p), ChangeView::Insert(y.id, y));
            assert(r == rp.insert(y.id, y));
            assert forall|k: LiteServerIdView| r.contains_key(k) <==> (m.contains_key(k) || is_inserted_id(known, fresh, k)) by {
                assert(r.contains_key(k) <==> (rp.contains_key(k) || k == y.id));
                assert(rp.contains_key(k) <==> (m.contains_key(k) || is_inserted_id(known, p, k)));
            }
            assert forall|k: LiteServerIdView| m.contains_key(k) && !is_inserted_id(known, fresh, k) implies r[k] == m[k] by {
                assert(!is_inserted_id(known, p, k));
                assert(k != y.id);
                assert(rp[k] == m[k]);
            }
            assert forall|j: int|
                0 <= j < fresh.len() && !known.contains(fresh[j]) implies r[#[trigger] fresh[j].id] == fresh[j] by {
                if j < fresh.len() - 1 {
                    assert(p[j] == fresh[j]);
                    assert(fresh[j].id != fresh[fresh.len() - 1].id);
                    assert(rp[p[j].id] == p[j]);
                }
            }
        }
    }
}

/// The changes of a tick bring a consumer from the old known set to the new one:
/// a consumer whose table holds each formerly known liteserver under its identifier,
/// and that takes in the announced changes in order, ends up holding each newly known
/// liteserver under its identifier and nothing else. This needs the identifiers to be
/// distinct within the old set and within the new one; a table keyed by identifier
/// cannot hold two liteservers under one identifier.
pub proof fn lemma_changes_rebuild_registry(known: Seq<LiteServerView>, fresh: Seq<LiteServerView>)
    requires
        ids_distinct(known),
        ids_distinct(fresh),
    ensures
        apply_changes(registry_of(known), discovery_changes(known, fresh)) == registry_of(fresh),
{
    let m0 = registry_of(known);
    let rem = removed_ids(known, fresh);
    let r = m0.remove_keys(rem);
    lemma_apply_concat(m0, removals(known, fresh), insertions(known, fresh));
    lemma_apply_removals(m0, known, fresh);
    lemma_apply_insertions(r, known, fresh);
    lemma_registry_dom(known);
    lemma_registry_value(known);
    lemma_registry_dom(fresh);
    lemma_registry_value(fresh);
    let f = apply_changes(r, insertions(known, fresh));
    let target = registry_of(fresh);
    assert forall|k: LiteServerIdView| f.contains_key(k) <==> target.contains_key(k) by {
        if target.contains_key(k) {
            let j = choose|j: int| 0 <= j < fresh.len() && fresh[j].id == k;
            if known.contains(fresh[j]) {
                let i = choose|i: int| 0 <= i < known.len() && known[i] == fresh[j];
                assert(known[i].id == k);
                assert(m0.contains_key(known[i].id));
                assert(!rem.contains(k)) by {
                    if rem.contains(k) {
                        let i2 = choose|i2: int|
                            0 <= i2 < known.len() && !fresh.contains(known[i2]) && known[i2].id == k;
                        assert(known[i2].id == known[i].id);
                        assert(fresh[j] == known[i2]);
                    }
                }
                assert(r.contains_key(k));
            } else {
                assert(is_inserted_id(known, fresh, k));
            }
            assert(f.contains_key(k));
        }
        if f.contains_key(k) {
            if is_inserted_id(known, fresh, k) {
                let j = choose|j: int| 0 <= j < fresh.len() && !known.contains(fresh[j]) && fresh[j].id == k;
                assert(target.contains_key(fresh[j].id));
            } else {
                assert(r.contains_key(k));
                assert(m0.contains_key(k));
                let i = choose|i: int| 0 <= i < known.len() && known[i].id == k;
                if !fresh.contains(known[i]) {
                    assert(rem.contains(k));
                }
                let j = choose|j: int| 0 <= j < fresh.len() && fresh[j] == known[i];
                assert(fresh[j].id == k);
                assert(target.contains_key(fresh[j].id));
            }
        }
    }
    assert forall|k: LiteServerIdView| f.contains_key(k) implies f[k] == target[k] by {
        assert(target.contains_key(k));
        let j = choose|j: int| 0 <= j < fresh.len() && fresh[j].id == k;
        assert(target[fresh[j].id] == fresh[j]);
        if known.contains(fresh[j]) {
            let i = choose|i: int| 0 <= i < known.len() && known[i] == fresh[j];
            assert(known[i].id == k);
            assert(m0[known[i].id] == known[i]);
            assert(!rem.contains(k)) by {
                if rem.contains(k) {
                    let i2 = choose|i2: int|
                        0 <= i2 < known.len() && !fresh.contains(known[i2]) && known[i2].id == k;
                    assert(known[i2].id == known[i].id);
                    assert(fresh[j] == known[i2]);
                }
            }
            assert(!is_inserted_id(known, fresh, k)) by {
                if is_inserted_id(known, fresh, k) {
                    let j2 = choose|j2: int|
                        0 <= j2 < fresh.len() && !known.contains(fresh[j2]) && fresh[j2].id == k;
                    assert(fresh[j2].id == fresh[j].id);
                }
            }
            assert(f[k] == r[k]);
        } else {
            assert(f[fresh[j].id] == fresh[j]);
        }
    }
    assert(f =~= target);
}

proof fn lemma_no_removals(known: Seq<LiteServerView>, fresh: Seq<LiteServerView>)
    requires
        forall|x: LiteServerView| known.contains(x) ==> fresh.contains(x),
    ensures
        removals(known, fresh) == Seq::<ChangeView>::empty(),
    decreases known.len(),
{
    if known.len() > 0 {
        let p = known.drop_last();
        assert forall|x: LiteServerView| p.contains(x) implies fresh.contains(x) by {
            let i = choose|i: int| 0 <= i < p.len() && p[i] == x;
            assert(known[i] == x);
        }
        lemma_no_removals(p, fresh);
        assert(known[known.len() - 1] == known.last());
        assert(known.contains(known.last()));
    }
}

proof fn lemma_no_insertions(known: Seq<LiteServerView>, fresh: Seq<LiteServerView>)
    requires
        forall|x: LiteServerView| fresh.contains(x) ==> known.contains(x),
    ensures
        insertions(known, fresh) == Seq::<ChangeView>::empty(),
    decreases fresh.len(),
{
    if fresh.len() > 0 {
        let p = fresh.drop_last();
        assert forall|x: LiteServerView| p.contains(x) implies known.contains(x) by {
            let i = choose|i: int| 0 <= i < p.len() && p[i] == x;
            assert(fresh[i] == x);
        }
        lemma_no_insertions(known, p);
        assert(fresh[fresh.len() - 1] == fresh.last());
        assert(fresh.contains(fresh.last()));
    }
}

/// A tick whose liteservers are the ones already known (in any order, with any
/// repetitions) announces nothing.
pub proof fn lemma_same_servers_no_changes(known: Seq<LiteServerView>, fresh: Seq<LiteServerView>)
    requires
        forall|x: LiteServerView| known.contains(x) <==> fresh.contains(x),
    ensures
        discovery_changes(known, fresh) == Seq::<ChangeView>::empty(),
{
    lemma_no_removals(known, fresh);
    lemma_no_insertions(known, fresh);
    assert(discovery_changes(known, fresh) =~= Seq::<ChangeView>::empty());
}

/// Two liteservers of `s` with the same identifier are the same liteserver.
pub open spec fn ids_determine(s: Seq<LiteServerView>) -> bool {
    forall|i: int, j: int|
        0 <= i < s.len() && 0 <= j < s.len() && #[trigger] s[i].id == #[trigger] s[j].id ==> s[i] == s[j]
}

proof fn lemma_dedup_ids_distinct(s: Seq<LiteServerView>)
    requires
        ids_determine(s),
    ensures
        ids_distinct(dedup(s)),
{
    lemma_dedup_no_duplicates(s);
    lemma_dedup_same_members(s);
    let d = dedup(s);
    assert forall|i: int, j: int|
        0 <= i < d.len() && 0 <= j < d.len() && #[trigger] d[i].id == #[trigger] d[j].id implies i == j by {
        assert(d.contains(d[i]));
        assert(d.contains(d[j]));
        assert(s.contains(d[i]));
        assert(s.contains(d[j]));
        let a = choose|a: int| 0 <= a < s.len() && s[a] == d[i];
        let b = choose|b: int| 0 <= b < s.len() && s[b] == d[j];
        assert(s[a].id == s[b].id);
        assert(d[i] == d[j]);
    }
}

/// Across any number of ticks from the start, a consumer that begins with an empty
/// table and takes in every announced change in order holds, after each tick, each
/// liteserver that discovery then knows under its identifier, and nothing else. This
/// needs that within each configuration two liteservers with the same identifier are
/// the same liteserver.
pub proof fn lemma_ticks_rebuild_registry(ticks: Seq<Seq<LiteServerView>>)
    requires
        forall|t: int| 0 <= t < ticks.len() ==> ids_determine(#[trigger] ticks[t]),
    ensures
        apply_changes(Map::empty(), announced(ticks)) == registry_of(known_after(ticks)),
    decreases ticks.len(),
{
    if ticks.len() == 0 {
        assert(registry_of(Seq::<LiteServerView>::empty()) == Map::<LiteServerIdView, LiteServerView>::empty());
    } else {
        let p = ticks.drop_last();
        assert forall|t: int| 0 <= t < p.len() implies ids_determine(#[trigger] p[t]) by {
            assert(p[t] == ticks[t]);
        }
        lemma_ticks_rebuild_registry(p);
        let before = known_after(p);
        let after = dedup(ticks.last());
        assert(ids_determine(ticks[ticks.len() - 1]));
        lemma_dedup_ids_distinct(ticks.last());
        if p.len() > 0 {
            assert(ids_determine(p[p.len() - 1]));
            lemma_dedup_ids_distinct(p.last());
        }
        lemma_apply_concat(Map::empty(), announced(p), discovery_changes(before, after));
        lemma_changes_rebuild_registry(before, after);
    }
}

/// Holds for the liteservers that `other` lacks.
pub open spec fn not_in(other: Seq<LiteServerView>) -> spec_fn(LiteServerView) -> bool {
    |x: LiteServerView| !other.contains(x)
}

/// The removal that announces the departure of a liteserver.
pub open spec fn removal_of() -> spec_fn(LiteServerView) -> ChangeView {
    |x: LiteServerView| ChangeView::Remove(x.id)
}

/// The insertion that announces the arrival of a liteserver.
pub open spec fn insertion_of() -> spec_fn(LiteServerView) -> ChangeView {
    |x: LiteServerView| ChangeView::Insert(x.id, x)
}

/// The known liteservers that the fresh set lacks, in known order.
pub open spec fn vanished(known: Seq<LiteServerView>, fresh: Seq<LiteServerView>) -> Seq<LiteServerView> {
    known.filter(not_in(fresh))
}

/// The fresh liteservers that were not known, in fresh order.
pub open spec fn appeared(known: Seq<LiteServerView>, fresh: Seq<LiteServerView>) -> Seq<LiteServerView> {
    fresh.filter(not_in(known))
}

proof fn lemma_filter_not_in(s: Seq<LiteServerView>, other: Seq<LiteServerView>)
    requires
        s.no_duplicates(),
    ensures
        forall|x: LiteServerView| s.filter(not_in(other)).contains(x) <==> (s.contains(x) && !other.contains(x)),
        s.filter(not_in(other)).no_duplicates(),
    decreases s.len(),
{
    reveal(Seq::filter);
    if s.len() > 0 {
        let p = s.drop_last();
        let y = s.last();
        assert(p.no_duplicates()) by {
            assert forall|i: int, j: int| 0 <= i < p.len() && 0 <= j < p.len() && i != j implies p[i] != p[j] by {
                assert(s[i] == p[i] && s[j] == p[j]);
            }
        }
        lemma_filter_not_in(p, other);
        let fp = p.filter(not_in(other));
        assert(!p.contains(y)) by {
            if p.contains(y) {
                let i = choose|i: int| 0 <= i < p.len() && p[i] == y;
                assert(s[i] == s[s.len() - 1]);
            }
        }
        assert forall|x: LiteServerView| s.contains(x) <==> (p.contains(x) || x == y) by {
            if s.contains(x) {
                let i = choose|i: int| 0 <= i < s.len() && s[i] == x;
                if i < s.len() - 1 {
                    assert(p[i] == x);
                }
            }
            if p.contains(x) {
                let i = choose|i: int| 0 <= i < p.len() && p[i] == x;
                assert(s[i] == x);
            }
            if x == y {
                assert(s[s.len() - 1] == x);
            }
        }
        if not_in(other)(y) {
            let f = fp.push(y);
            assert(s.filter(not_in(other)) == f);
            assert forall|x: LiteServerView| f.contains(x) <==> (fp.contains(x) || x == y) by {
                if f.contains(x) {
                    let i = choose|i: int| 0 <= i < f.len() && f[i] == x;
                    if i < fp.len() {
                        assert(fp[i] == x);
                    }
                }
                if fp.contains(x) {
                    let i = choose|i: int| 0 <= i < fp.len() && fp[i] == x;
                    assert(f[i] == x);
                }
                if x == y {
                    assert(f[fp.len() as int] == x);
                }
            }
            assert forall|i: int, j: int| 0 <= i < f.len() && 0 <= j < f.len() && i != j implies f[i] != f[j] by {
                if i < fp.len() && j < fp.len() {
                    assert(f[i] == fp[i] && f[j] == fp[j]);
                } else if i < fp.len() {
                    assert(fp.contains(f[i]));
                } else if j < fp.len() {
                    assert(fp.contains(f[j]));
                }
            }
        } else {
            assert(s.filter(not_in(other)) == fp);
        }
    }
}

proof fn lemma_removals_as_filter(known: Seq<LiteServerView>, fresh: Seq<LiteServerView>)
    ensures
        removals(known, fresh) == vanished(known, fresh).map_values(removal_of()),
    decreases known.len(),
{
    reveal(Seq::filter);
    if known.len() > 0 {
        let p = known.drop_last();
        lemma_removals_as_filter(p, fresh);
        let fp = p.filter(not_in(fresh));
        if not_in(fresh)(known.last()) {
            assert(fp.push(known.last()).map_values(removal_of()) =~= fp.map_values(removal_of()).push(
                ChangeView::Remove(known.last().id),
            ));
        }
    } else {
        assert(removals(known, fresh) =~= vanished(known, fresh).map_values(removal_of()));
    }
}

proof fn lemma_insertions_as_filter(known: Seq<LiteServerView>, fresh: Seq<LiteServerView>)
    ensures
        insertions(known, fresh) == appeared(known, fresh).map_values(insertion_of()),
    decreases fresh.len(),
{
    reveal(Seq::filter);
    if fresh.len() > 0 {
        let p = fresh.drop_last();
        lemma_insertions_as_filter(known, p);
        let fp = p.filter(not_in(known));
        if not_in(known)(fresh.last()) {
            assert(fp.push(fresh.last()).map_values(insertion_of()) =~= fp.map_values(insertion_of()).push(
                ChangeView::Insert(fresh.last().id, fresh.last()),
            ));
        }
    } else {
        assert(insertions(known, fresh) =~= appeared(known, fresh).map_values(insertion_of()));
    }
}

/// A tick announces one removal for each formerly known liteserver that is gone,
/// then one insertion for each liteserver that is new, and nothing else: the removals
/// follow the vanished liteservers in known order, the insertions the appeared ones
/// in fresh order, and each vanished or appeared liteserver occurs once.
pub proof fn lemma_tick_announces_each_difference_once(known: Seq<LiteServerView>, fresh: Seq<LiteServerView>)
    requires
        known.no_duplicates(),
        fresh.no_duplicates(),
    ensures
        discovery_changes(known, fresh) == vanished(known, fresh).map_values(removal_of()) + appeared(
            known,
            fresh,
        ).map_values(insertion_of()),
        forall|x: LiteServerView|
            vanished(known, fresh).contains(x) <==> (known.contains(x) && !fresh.contains(x)),
        forall|x: LiteServerView|
            appeared(known, fresh).contains(x) <==> (fresh.contains(x) && !known.contains(x)),
        vanished(known, fresh).no_duplicates(),
        appeared(known, fresh).no_duplicates(),
{
    lemma_removals_as_filter(known, fresh);
    lemma_insertions_as_filter(known, fresh);
    lemma_filter_not_in(known, fresh);
    lemma_filter_not_in(fresh, known);
}

} // verus!
