//! The state that discovery keeps between configuration ticks, and the tick itself.

use vstd::prelude::*;

use crate::discover::changes::{announced, change_views, dedup, known_after, lemma_dedup_no_duplicates, lemma_dedup_same_members, discovery_changes, insertions, removals, server_views, Change, ChangeView};
use crate::discover::server::{same_server, LiteServer, LiteServerView};

verus! {

fn contains_server(v: &Vec<LiteServer>, s: &LiteServer) -> (r: bool)
    ensures
        r == server_views(v@).contains(s@),
{
    let n = v.len();
    for i in 0..n
        invariant
            n == v@.len(),
            forall|j: int| 0 <= j < i ==> v@[j]@ != s@,
    {
        if same_server(&v[i], s) {
            assert(server_views(v@)[i as int] == s@);
            return true;
        }
    }
    assert forall|j: int| 0 <= j < server_views(v@).len() implies server_views(v@)[j] != s@ by {
        assert(server_views(v@)[j] == v@[j]@);
    }
    false
}

/// The liteservers that discovery currently knows, each value once.
pub struct DiscoveryState {
    servers: Vec<LiteServer>,
    history: Ghost<Seq<Seq<LiteServerView>>>,
}

impl View for DiscoveryState {
    type V = Seq<LiteServerView>;

    closed spec fn view(&self) -> Seq<LiteServerView> {
        server_views(self.servers@)
    }
}

impl DiscoveryState {
    #[verifier::type_invariant]
    closed spec fn known_once(&self) -> bool {
        &&& server_views(self.servers@).no_duplicates()
        &&& server_views(self.servers@) == known_after(self.history@)
    }

    /// The resolved liteservers of every tick so far, in order.
    pub closed spec fn history(&self) -> Seq<Seq<LiteServerView>> {
        self.history@
    }

    /// Discovery before its first tick: no liteserver is known.
    pub fn new() -> (r: Self)
        ensures
            r@ == Seq::<LiteServerView>::empty(),
            r.history() == Seq::<Seq<LiteServerView>>::empty(),
    {
        let servers: Vec<LiteServer> = Vec::new();
        assert(server_views(servers@) =~= Seq::<LiteServerView>::empty());
        let r = DiscoveryState { servers, history: Ghost(Seq::empty()) };
        assert(r@ =~= Seq::<LiteServerView>::empty());
        r
    }

    /// The known liteservers.
    pub fn servers(&self) -> (r: &Vec<LiteServer>)
        ensures
            server_views(r@) == self@,
            self@.no_duplicates(),
            self@ == known_after(self.history()),
    {
        proof {
            use_type_invariant(self);
        }
        &self.servers
    }

    /// One configuration tick. `resolved` are the liteservers of the new
    /// configuration whose DNS lookup succeeded, in order. The known set becomes
    /// `resolved` without repetitions; the result announces the removal of every
    /// formerly known liteserver that is no longer there, then the insertion of every
    /// liteserver that was not known before.
    pub fn apply_config(&mut self, resolved: Vec<LiteServer>) -> (changes: Vec<Change>)
        ensures
            old(self)@.no_duplicates(),
            final(self)@ == dedup(server_views(resolved@)),
            final(self)@.no_duplicates(),
            forall|x: LiteServerView| final(self)@.contains(x) <==> server_views(resolved@).contains(x),
            change_views(changes@) == discovery_changes(old(self)@, final(self)@),
            old(self)@ == known_after(old(self).history()),
            final(self).history() == old(self).history().push(server_views(resolved@)),
            final(self)@ == known_after(final(self).history()),
            announced(final(self).history()) == announced(old(self).history()) + change_views(changes@),
    {
        proof {
            use_type_invariant(&*self);
        }
        let ghost rv = server_views(resolved@);
        let mut fresh: Vec<LiteServer> = Vec::new();
        let n = resolved.len();
        assert(server_views(fresh@) =~= dedup(rv.take(0)));
        for i in 0..n
            invariant
                n == resolved@.len(),
                rv == server_views(resolved@),
                server_views(fresh@) == dedup(rv.take(i as int)),
        {
            let present = contains_server(&fresh, &resolved[i]);
            proof {
                assert(rv.take(i + 1).drop_last() =~= rv.take(i as int));
                assert(rv.take(i + 1).last() == resolved@[i as int]@);
            }
            if !present {
                fresh.push(resolved[i].clone());
                assert(server_views(fresh@) =~= dedup(rv.take(i as int)).push(resolved@[i as int]@));
            }
        }
        assert(rv.take(n as int) =~= rv);
        proof {
            lemma_dedup_no_duplicates(rv);
            lemma_dedup_same_members(rv);
        }
        let ghost known = server_views(self.servers@);
        let ghost fv = server_views(fresh@);
        let mut changes: Vec<Change> = Vec::new();
        let m = self.servers.len();
        assert(change_views(changes@) =~= removals(known.take(0), fv));
        for i in 0..m
            invariant
                m == self.servers@.len(),
                known == server_views(self.servers@),
                fv == server_views(fresh@),
                change_views(changes@) == removals(known.take(i as int), fv),
        {
            let present = contains_server(&fresh, &self.servers[i]);
            proof {
                assert(known.take(i + 1).drop_last() =~= known.take(i as int));
                assert(known.take(i + 1).last() == self.servers@[i as int]@);
            }
            if !present {
                changes.push(Change::Remove(self.servers[i].id.clone()));
                assert(change_views(changes@) =~= removals(known.take(i as int), fv).push(
                    ChangeView::Remove(self.servers@[i as int]@.id),
                ));
            }
        }
        assert(known.take(m as int) =~= known);
        let ghost removed = change_views(changes@);
        let k = fresh.len();
        assert(change_views(changes@) =~= removed + insertions(known, fv.take(0)));
        for i in 0..k
            invariant
                k == fresh@.len(),
                known == server_views(self.servers@),
                fv == server_views(fresh@),
                change_views(changes@) == removed + insertions(known, fv.take(i as int)),
        {
            let present = contains_server(&self.servers, &fresh[i]);
            proof {
                assert(fv.take(i + 1).drop_last() =~= fv.take(i as int));
                assert(fv.take(i + 1).last() == fresh@[i as int]@);
            }
            if !present {
                let ls = fresh[i].clone();
                let id = ls.id.clone();
                let ghost before = change_views(changes@);
                changes.push(Change::Insert(id, ls));
                assert(change_views(changes@) =~= before.push(
                    ChangeView::Insert(fresh@[i as int]@.id, fresh@[i as int]@),
                ));
                assert(change_views(changes@) =~= removed + insertions(known, fv.take(i as int)).push(
                    ChangeView::Insert(fresh@[i as int]@.id, fresh@[i as int]@),
                ));
            }
        }
        assert(fv.take(k as int) =~= fv);
        let ghost h = self.history@.push(rv);
        proof {
            assert(h.drop_last() =~= self.history@);
            assert(h.last() == rv);
            assert(known_after(h) == dedup(rv));
        }
        *self = DiscoveryState { servers: fresh, history: Ghost(h) };
        changes
    }
}

} // verus!
