//! The subscription router: which observer watches which chunks, and which
//! updates each observer is owed.

use vstd::prelude::*;
use slab::Slab;
use std::collections::hash_map::Entry;
use std::collections::HashMap;
use std::collections::HashSet;
use vstd::std_specs::hash::OccupiedEntrySpecFns;
use vstd::std_specs::iter::IteratorSpec;
use crate::coords::{chunk_key, is_chunk_key, lemma_key_injective, pack, CHUNK_WIDTH};
use crate::interest::{
    table_contains, table_entries, table_get_mut, table_insert, table_new, table_try_remove,
};
use crate::update::{views, GridUpdate, GridUpdateAction, UpdateView};

verus! {

/// Someone who takes batches of updates.
pub trait Subscriber: Send {
    /// Takes the updates of one batch, in order.
    fn notify(&self, updates: Vec<GridUpdate>);
}

/// The registry of observers. An observer has an identity, a set of chunks
/// that it watches, and a sink that takes its batches. A reverse index holds
/// for every watched chunk the observers that watch it.
#[verifier::reject_recursive_types(S)]
pub struct SubscriptionManager<S: Subscriber> {
    subscribers: Slab<HashSet<u128>>,
    sinks: Vec<Option<S>>,
    chunks: HashMap<u128, HashSet<usize>>,
}

impl<S: Subscriber> SubscriptionManager<S> {
    /// For each observer, by identity, the chunks that it watches.
    pub closed spec fn interests(&self) -> Map<usize, Set<(usize, usize)>> {
        Map::new(
            |id: usize| table_entries(self.subscribers).contains_key(id),
            |id: usize|
                Set::new(|c: (usize, usize)| table_entries(self.subscribers)[id].contains(chunk_key(c))),
        )
    }

    /// For each observer, by identity, the sink that takes its batches.
    pub closed spec fn sinks(&self) -> Map<usize, S> {
        Map::new(
            |id: usize| table_entries(self.subscribers).contains_key(id),
            |id: usize| self.sinks@[id as int]->Some_0,
        )
    }

    /// The observers that the reverse index holds for chunk `c`.
    pub closed spec fn watchers(&self, c: (usize, usize)) -> Set<usize> {
        if self.chunks@.contains_key(chunk_key(c)) {
            self.chunks@[chunk_key(c)]@
        } else {
            Set::empty()
        }
    }

    /// Whether the reverse index holds an entry for chunk `c`.
    pub closed spec fn indexed(&self, c: (usize, usize)) -> bool {
        self.chunks@.contains_key(chunk_key(c))
    }

    /// The invariant of the registry: every observer has a sink, and the
    /// reverse index holds an observer under a chunk if and only if the
    /// observer watches the chunk, and holds no chunk that nobody watches.
    pub closed spec fn wf(&self) -> bool {
        &&& forall|id: usize| #[trigger]
            table_entries(self.subscribers).contains_key(id) ==> id < self.sinks@.len()
                && self.sinks@[id as int] is Some
        &&& linked(table_entries(self.subscribers), self.chunks@, 0, Set::empty())
    }

    /// A registry without observers.
    pub fn new() -> (manager: SubscriptionManager<S>)
        ensures
            manager.wf(),
            manager.interests() == Map::<usize, Set<(usize, usize)>>::empty(),
            manager.sinks() == Map::<usize, S>::empty(),
    {
        let manager = SubscriptionManager {
            subscribers: table_new(),
            sinks: Vec::new(),
            chunks: HashMap::new(),
        };
        assert(manager.interests() =~= Map::<usize, Set<(usize, usize)>>::empty());
        assert(manager.sinks() =~= Map::<usize, S>::empty());
        manager
    }

    /// Whether `id` is the identity of an observer.
    pub fn has_subscriber(&self, id: usize) -> (known: bool)
        ensures
            known == self.interests().contains_key(id),
    {
        table_contains(&self.subscribers, id)
    }

    /// The sink of observer `id`, if `id` is the identity of an observer.
    pub fn sink(&self, id: usize) -> (sink: Option<&S>)
        requires
            self.wf(),
        ensures
            match sink {
                Some(sink) => self.sinks().contains_key(id) && *sink == self.sinks()[id],
                None => !self.sinks().contains_key(id),
            },
    {
        if table_contains(&self.subscribers, id) {
            self.sinks[id].as_ref()
        } else {
            None
        }
    }

    /// Whether the reverse index holds an entry for chunk `(cx, cy)`.
    pub fn is_indexed(&self, cx: usize, cy: usize) -> (indexed: bool)
        ensures
            indexed == self.indexed((cx, cy)),
    {
        let key = pack(cx, cy);
        self.chunks.contains_key(&key)
    }

    /// Whether the reverse index holds observer `id` under chunk `(cx, cy)`.
    pub fn is_watching(&self, id: usize, cx: usize, cy: usize) -> (watching: bool)
        ensures
            watching == self.watchers((cx, cy)).contains(id),
    {
        let key = pack(cx, cy);
        match self.chunks.get(&key) {
            Some(ids) => ids.contains(&id),
            None => false,
        }
    }

    /// Registers an observer whose batches go to `subscriber`, and returns
    /// its identity, which no observer had. It watches no chunk yet.
    pub fn subscribe(&mut self, subscriber: S) -> (id: usize)
        requires
            old(self).wf(),
        ensures
            final(self).wf(),
            !old(self).interests().contains_key(id),
            final(self).interests() == old(self).interests().insert(id, Set::empty()),
            final(self).sinks() == old(self).sinks().insert(id, subscriber),
    {
        let id = table_insert(&mut self.subscribers, HashSet::new());
        let ghost table = self.subscribers;
        while self.sinks.len() <= id
            invariant
                self.subscribers == table,
                self.chunks == old(self).chunks,
                self.sinks@.len() >= old(self).sinks@.len(),
                forall|i: int| 0 <= i < old(self).sinks@.len() ==> self.sinks@[i] == old(self).sinks@[i],
            decreases id + 1 - self.sinks.len(),
        {
            self.sinks.push(None);
        }
        self.sinks[id] = Some(subscriber);
        proof {
            assert(self.sinks() =~= old(self).sinks().insert(id, subscriber));
            assert(self.interests() =~= old(self).interests().insert(id, Set::empty())) by {
                assert forall|j: usize| self.interests().contains_key(j) implies self.interests()[j]
                    =~= old(self).interests().insert(id, Set::empty())[j] by {}
            }
        }
        id
    }

    /// What observer `id` is owed of `updates`; nothing, if there is no such
    /// observer.
    pub open spec fn owed(&self, updates: Seq<UpdateView>, id: usize) -> Seq<UpdateView> {
        if self.interests().contains_key(id) {
            batch_for(updates, self.interests()[id])
        } else {
            Seq::empty()
        }
    }

    /// The batches that `updates` give rise to: one for every observer that
    /// is owed an update, in ascending order of the observers' identities.
    /// A batch holds what its observer is owed: the updates that affect a
    /// chunk it watches, in their order in `updates`. An update that affects
    /// two chunks which the observer both watches is in its batch once.
    pub fn route(&self, updates: &Vec<GridUpdate>) -> (batches: Vec<(usize, Vec<GridUpdate>)>)
        requires
            self.wf(),
        ensures
            forall|i: int, j: int|
                0 <= i < j < batches@.len() ==> (#[trigger] batches@[i]).0 < (#[trigger] batches@[j]).0,
            forall|i: int|
                0 <= i < batches@.len() ==> {
                    &&& (#[trigger] batches@[i]).1@.len() > 0
                    &&& views(batches@[i].1@) == self.owed(views(updates@), batches@[i].0)
                },
            forall|id: usize|
                (#[trigger] self.owed(views(updates@), id)).len() > 0 ==> exists|i: int|
                    0 <= i < batches@.len() && (#[trigger] batches@[i]).0 == id,
    {
        let n = self.sinks.len();
        let ghost all = views(updates@);
        let mut queues: Vec<Vec<GridUpdate>> = Vec::new();
        let mut id: usize = 0;
        while id < n
            invariant
                id <= n,
                queues@.len() == id,
                forall|j: int| 0 <= j < id ==> (#[trigger] queues@[j])@.len() == 0,
            decreases n - id,
        {
            queues.push(Vec::new());
            id += 1;
        }
        let mut t: usize = 0;
        proof {
            assert(all.take(0) =~= Seq::empty());
            assert forall|j: int| 0 <= j < n implies views((#[trigger] queues@[j])@) == self.owed(
                all.take(0),
                j as usize,
            ) by {
                assert(views(queues@[j]@) =~= Seq::empty());
            }
        }
        while t < updates.len()
            invariant
                self.wf(),
                n == self.sinks@.len(),
                all == views(updates@),
                t <= updates.len(),
                queues@.len() == n,
                forall|j: int|
                    0 <= j < n ==> views((#[trigger] queues@[j])@) == self.owed(
                        all.take(t as int),
                        j as usize,
                    ),
            decreases updates.len() - t,
        {
            let update = &updates[t];
            let anchor = (update.x / CHUNK_WIDTH, update.y / CHUNK_WIDTH);
            let first = self.chunks.get(&pack(anchor.0, anchor.1));
            let ghost start = queues@;
            let ghost watching_first = self.watchers(anchor);
            match first {
                Some(ids) => {
                    fan_out(&mut queues, ids, None, update);
                },
                None => {},
            }
            let ghost mut watching_second = Set::<usize>::empty();
            match update.action {
                GridUpdateAction::MoveCursor { to_x, to_y, .. } => {
                    let target = (to_x / CHUNK_WIDTH, to_y / CHUNK_WIDTH);
                    if target.0 != anchor.0 || target.1 != anchor.1 {
                        proof {
                            watching_second = self.watchers(target);
                        }
                        match self.chunks.get(&pack(target.0, target.1)) {
                            Some(ids) => {
                                fan_out(&mut queues, ids, first, update);
                            },
                            None => {},
                        }
                    }
                },
                _ => {},
            }
            proof {
                let now = all.take(t + 1);
                assert(now.drop_last() =~= all.take(t as int));
                assert(now.last() == update@);
                assert forall|j: int| 0 <= j < n implies views((#[trigger] queues@[j])@)
                    == self.owed(now, j as usize) by {
                    let id = j as usize;
                    self.lemma_reverse_index(id, anchor);
                    if update@.arrival_chunk() is Some {
                        self.lemma_reverse_index(id, update@.arrival_chunk()->Some_0);
                    }
                    if self.interests().contains_key(id) {
                        let interest = self.interests()[id];
                        if update@.concerns(interest) {
                            let c = choose|c: (usize, usize)|
                                update@.touches(c) && interest.contains(c);
                            assert(watching_first.contains(id) || watching_second.contains(id));
                        }
                        if watching_first.contains(id) {
                            assert(update@.touches(anchor) && interest.contains(anchor));
                        }
                        if watching_second.contains(id) {
                            let c = update@.arrival_chunk()->Some_0;
                            assert(update@.touches(c) && interest.contains(c));
                        }
                    }
                }
            }
            t += 1;
        }
        proof {
            assert(all.take(all.len() as int) =~= all);
        }
        let mut batches: Vec<(usize, Vec<GridUpdate>)> = Vec::new();
        let mut id: usize = 0;
        while id < n
            invariant
                id <= n,
                queues@.len() == n,
                forall|j: int|
                    id <= j < n ==> views((#[trigger] queues@[j])@) == self.owed(all, j as usize),
                forall|i: int| 0 <= i < batches@.len() ==> (#[trigger] batches@[i]).0 < id,
                forall|i: int, j: int|
                    0 <= i < j < batches@.len() ==> (#[trigger] batches@[i]).0 < (
                    #[trigger] batches@[j]).0,
                forall|i: int|
                    0 <= i < batches@.len() ==> {
                        &&& (#[trigger] batches@[i]).1@.len() > 0
                        &&& views(batches@[i].1@) == self.owed(all, batches@[i].0)
                    },
                forall|j: usize|
                    j < id && (#[trigger] self.owed(all, j)).len() > 0 ==> exists|i: int|
                        0 <= i < batches@.len() && (#[trigger] batches@[i]).0 == j,
            decreases n - id,
        {
            if queues[id].len() > 0 {
                let mut batch: Vec<GridUpdate> = Vec::new();
                core::mem::swap(&mut queues[id], &mut batch);
                let ghost earlier = batches@;
                batches.push((id, batch));
                proof {
                    assert forall|j: usize|
                        j < id + 1 && (#[trigger] self.owed(all, j)).len() > 0 implies exists|
                        i: int,
                    |
                        0 <= i < batches@.len() && (#[trigger] batches@[i]).0 == j by {
                        if j < id {
                            let i = choose|i: int|
                                0 <= i < earlier.len() && (#[trigger] earlier[i]).0 == j;
                            assert(batches@[i].0 == j);
                        } else {
                            assert(batches@[earlier.len() as int].0 == j);
                        }
                    }
                }
            }
            id += 1;
        }
        proof {
            assert forall|j: usize| (#[trigger] self.owed(all, j)).len() > 0 implies j < n by {}
        }
        batches
    }

    /// Hands every observer that is owed an update its batch, in ascending
    /// order of the observers' identities: one call of its sink for each.
    pub fn notify(&self, updates: Vec<GridUpdate>)
        requires
            self.wf(),
    {
        let batches = self.route(&updates);
        let ghost all = views(updates@);
        for entry in it: batches
            invariant
                self.wf(),
                forall|i: int|
                    0 <= i < it.seq().len() ==> self.owed(all, (#[trigger] it.seq()[i]).0).len() > 0,
        {
            let (id, batch) = entry;
            if let Some(sink) = &self.sinks[id] {
                sink.notify(batch);
            }
        }
    }

    /// An observer that registers and is removed at once leaves no trace:
    /// the registry holds the observers and interests that it held before,
    /// and the reverse index holds under every chunk what it held before,
    /// which is nowhere the identity that the observer had.
    pub proof fn lemma_subscribe_then_remove(start: &Self, subscribed: &Self, removed: &Self, id: usize)
        requires
            start.wf(),
            subscribed.wf(),
            removed.wf(),
            !start.interests().contains_key(id),
            subscribed.interests() == start.interests().insert(id, Set::empty()),
            removed.interests() == subscribed.interests().remove(id),
        ensures
            removed.interests() == start.interests(),
            forall|c: (usize, usize)| removed.watchers(c) == start.watchers(c),
            forall|c: (usize, usize)| !removed.watchers(c).contains(id),
    {
        assert(removed.interests() =~= start.interests());
        assert forall|c: (usize, usize)| removed.watchers(c) == start.watchers(c)
            && !removed.watchers(c).contains(id) by {
            assert forall|j: usize| removed.watchers(c).contains(j) == start.watchers(c).contains(
                j,
            ) by {
                removed.lemma_reverse_index(j, c);
                start.lemma_reverse_index(j, c);
            }
            assert(removed.watchers(c) =~= start.watchers(c));
            removed.lemma_reverse_index(id, c);
        }
    }

    /// The reverse index is right: it holds observer `id` under chunk `c`
    /// if and only if `id` is an observer that watches `c`.
    pub proof fn lemma_reverse_index(&self, id: usize, c: (usize, usize))
        requires
            self.wf(),
        ensures
            self.watchers(c).contains(id) <==> self.interests().contains_key(id)
                && self.interests()[id].contains(c),
    {
    }

    /// The reverse index is pruned: it holds an entry for a chunk if and
    /// only if some observer watches the chunk.
    pub proof fn lemma_index_pruned(&self, c: (usize, usize))
        requires
            self.wf(),
        ensures
            self.indexed(c) <==> exists|id: usize| self.watchers(c).contains(id),
    {
        if self.indexed(c) {
            let ids = self.chunks@[chunk_key(c)]@;
            assert(exists|id: usize| ids.contains(id)) by {
                if forall|id: usize| !ids.contains(id) {
                    assert(ids =~= Set::<usize>::empty());
                }
            }
            let id = choose|id: usize| ids.contains(id);
            assert(self.watchers(c).contains(id));
        }
    }

    /// Adds the chunks of `chunks` to those that observer `id` watches. If
    /// `id` is not the identity of an observer, nothing changes.
    pub fn subscribe_chunks(&mut self, id: usize, chunks: Vec<(usize, usize)>)
        requires
            old(self).wf(),
        ensures
            final(self).wf(),
            final(self).interests() == if old(self).interests().contains_key(id) {
                old(self).interests().insert(
                    id,
                    old(self).interests()[id].union(chunks@.to_set()),
                )
            } else {
                old(self).interests()
            },
            final(self).sinks() == old(self).sinks(),
    {
        if !table_contains(&self.subscribers, id) {
            return ;
        }
        let ghost before = self.interests();
        let mut i: usize = 0;
        proof {
            assert(chunks@.take(0).to_set() =~= Set::empty());
            assert(before[id].union(Set::empty()) =~= before[id]);
            assert(self.interests() =~= before.insert(id, before[id]));
        }
        while i < chunks.len()
            invariant
                i <= chunks.len(),
                self.wf(),
                before.contains_key(id),
                table_entries(self.subscribers).contains_key(id),
                self.sinks() == old(self).sinks(),
                self.interests() == before.insert(
                    id,
                    before[id].union(chunks@.take(i as int).to_set()),
                ),
            decreases chunks.len() - i,
        {
            let c = chunks[i];
            let key = pack(c.0, c.1);
            let ghost entries = table_entries(self.subscribers);
            let ghost index = self.chunks@;
            let ghost prev = self.interests();
            match table_get_mut(&mut self.subscribers, id) {
                Some(interest) => {
                    interest.insert(key);
                },
                None => {},
            }
            remember(&mut self.chunks, key, id);
            proof {
                assert(table_entries(self.subscribers) == entries.insert(
                    id,
                    entries[id].insert(key),
                ));
                assert(self.interests()[id] =~= prev[id].insert(c)) by {
                    assert forall|other: (usize, usize)|
                        self.interests()[id].contains(other) == prev[id].insert(c).contains(
                            other,
                        ) by {
                        lemma_key_injective(other, c);
                    }
                }
                assert(self.interests() =~= prev.insert(id, prev[id].insert(c))) by {
                    assert forall|j: usize| self.interests().contains_key(j) && j != id implies
                        self.interests()[j] =~= prev[j] by {}
                }
                assert(self.chunks@[key]@.contains(id));
                assert(self.sinks() =~= old(self).sinks());
                lemma_take_next_to_set(chunks@, i as int);
                assert(before[id].union(chunks@.take(i + 1).to_set()) =~= prev[id].insert(c));
                assert(self.interests() =~= before.insert(
                    id,
                    before[id].union(chunks@.take(i + 1).to_set()),
                ));
            }
            i += 1;
        }
        proof {
            assert(chunks@.take(chunks@.len() as int) =~= chunks@);
        }
    }

    /// Takes chunk `(chunk_x, chunk_y)` out of those that observer `id`
    /// watches. If the observer does not watch the chunk, or `id` is not the
    /// identity of an observer, nothing changes.
    pub fn unsubscribe_chunk(&mut self, id: usize, chunk_x: usize, chunk_y: usize)
        requires
            old(self).wf(),
        ensures
            final(self).wf(),
            final(self).interests() == if old(self).interests().contains_key(id) {
                old(self).interests().insert(
                    id,
                    old(self).interests()[id].remove((chunk_x, chunk_y)),
                )
            } else {
                old(self).interests()
            },
            final(self).sinks() == old(self).sinks(),
    {
        let key = pack(chunk_x, chunk_y);
        let ghost c = (chunk_x, chunk_y);
        let ghost entries = table_entries(self.subscribers);
        match table_get_mut(&mut self.subscribers, id) {
            Some(interest) => {
                interest.remove(&key);
            },
            None => {
                return ;
            },
        }
        forget(&mut self.chunks, key, id);
        proof {
            assert(table_entries(self.subscribers) == entries.insert(
                id,
                entries[id].remove(key),
            ));
            assert(self.sinks() =~= old(self).sinks());
            assert(self.interests()[id] =~= old(self).interests()[id].remove(c)) by {
                assert forall|other: (usize, usize)|
                    self.interests()[id].contains(other) == old(self).interests()[id].remove(
                        c,
                    ).contains(other) by {
                    lemma_key_injective(other, c);
                }
            }
            assert(self.interests() =~= old(self).interests().insert(
                id,
                old(self).interests()[id].remove(c),
            )) by {
                assert forall|j: usize| self.interests().contains_key(j) && j != id implies
                    self.interests()[j] =~= old(self).interests()[j] by {}
            }
        }
    }

    /// Removes observer `id`: it watches nothing any more, the reverse index
    /// holds it under no chunk, and its identity may be given out again. If
    /// `id` is not the identity of an observer, nothing changes.
    pub fn remove_subscriber(&mut self, id: usize)
        requires
            old(self).wf(),
        ensures
            final(self).wf(),
            final(self).interests() == old(self).interests().remove(id),
            final(self).sinks() == old(self).sinks().remove(id),
            forall|c: (usize, usize)| !final(self).watchers(c).contains(id),
    {
        let interest = match table_try_remove(&mut self.subscribers, id) {
            Some(interest) => interest,
            None => {
                assert(self.interests() =~= old(self).interests().remove(id));
                assert(self.sinks() =~= old(self).sinks().remove(id));
                return ;
            },
        };
        self.sinks[id] = None;
        let ghost entries = table_entries(self.subscribers);
        let ghost table = self.subscribers;
        let ghost sinks = self.sinks;
        let ghost keys = interest.iter().remaining();
        proof {
            assert forall|k: u128| interest@.contains(k) implies pending(keys.unref(), 0).contains(
                k,
            ) by {
                assert(keys.unref().to_set().contains(k));
                let j = choose|j: int| 0 <= j < keys.unref().len() && keys.unref()[j] == k;
                assert(0 <= j < keys.unref().len() && keys.unref()[j] == k);
            }
        }
        for key in it: interest.iter()
            invariant
                it.seq() == keys,
                self.subscribers == table,
                self.sinks == sinks,
                !entries.contains_key(id),
                linked(entries, self.chunks@, id, pending(keys.unref(), it.index())),
        {
            forget(&mut self.chunks, *key, id);
        }
        proof {
            assert(self.sinks() =~= old(self).sinks().remove(id));
            assert(pending(keys.unref(), keys.len() as int) =~= Set::empty());
            assert(self.interests() =~= old(self).interests().remove(id)) by {
                assert forall|j: usize| self.interests().contains_key(j) implies
                    self.interests()[j] =~= old(self).interests()[j] by {}
            }
        }
    }

    /// Removes observer `id`, as `remove_subscriber` does.
    pub fn unsubscribe(&mut self, id: usize)
        requires
            old(self).wf(),
        ensures
            final(self).wf(),
            final(self).interests() == old(self).interests().remove(id),
            final(self).sinks() == old(self).sinks().remove(id),
            forall|c: (usize, usize)| !final(self).watchers(c).contains(id),
    {
        self.remove_subscriber(id);
    }
}

/// What an observer that watches the chunks of `interest` is owed of
/// `updates`: those that affect a chunk of `interest`, in order, each once.
pub open spec fn batch_for(updates: Seq<UpdateView>, interest: Set<(usize, usize)>) -> Seq<
    UpdateView,
>
    decreases updates.len(),
{
    if updates.len() == 0 {
        Seq::empty()
    } else {
        let earlier = batch_for(updates.drop_last(), interest);
        if updates.last().concerns(interest) {
            earlier.push(updates.last())
        } else {
            earlier
        }
    }
}

/// What an observer is owed is the updates that affect a chunk it watches,
/// filtered out of all updates: all of them, in their order, each once.
pub proof fn lemma_batch_is_filter(updates: Seq<UpdateView>, interest: Set<(usize, usize)>)
    ensures
        batch_for(updates, interest) == updates.filter(|u: UpdateView| u.concerns(interest)),
    decreases updates.len(),
{
    reveal(Seq::filter);
    if updates.len() > 0 {
        lemma_batch_is_filter(updates.drop_last(), interest);
    }
}

/// An observer is owed only updates that affect a chunk it watches: none of
/// the others is in its batch, and an observer that watches no chunk is owed
/// nothing.
pub proof fn lemma_batch_scoped(updates: Seq<UpdateView>, interest: Set<(usize, usize)>)
    ensures
        forall|i: int|
            0 <= i < batch_for(updates, interest).len() ==> (#[trigger] batch_for(
                updates,
                interest,
            )[i]).concerns(interest),
        (forall|i: int| 0 <= i < updates.len() ==> !(#[trigger] updates[i]).concerns(interest))
            ==> batch_for(updates, interest) == Seq::<UpdateView>::empty(),
        interest == Set::<(usize, usize)>::empty() ==> batch_for(updates, interest) == Seq::<
            UpdateView,
        >::empty(),
    decreases updates.len(),
{
    if updates.len() > 0 {
        lemma_batch_scoped(updates.drop_last(), interest);
        let earlier = batch_for(updates.drop_last(), interest);
        assert forall|i: int| 0 <= i < batch_for(updates, interest).len() implies (
        #[trigger] batch_for(updates, interest)[i]).concerns(interest) by {
            if i < earlier.len() {
                assert(earlier[i].concerns(interest));
            }
        }
        if forall|i: int| 0 <= i < updates.len() ==> !(#[trigger] updates[i]).concerns(interest) {
            assert forall|i: int| 0 <= i < updates.drop_last().len() implies !(
            #[trigger] updates.drop_last()[i]).concerns(interest) by {
                assert(updates.drop_last()[i] == updates[i]);
            }
        }
    }
}

/// Appends `update` to the queue of every observer of `ids` that is not in
/// `skip`.
fn fan_out(
    queues: &mut Vec<Vec<GridUpdate>>,
    ids: &HashSet<usize>,
    skip: Option<&HashSet<usize>>,
    update: &GridUpdate,
)
    requires
        forall|id: usize| ids@.contains(id) ==> id < old(queues)@.len(),
    ensures
        final(queues)@.len() == old(queues)@.len(),
        forall|j: int|
            0 <= j < old(queues)@.len() ==> views((#[trigger] final(queues)@[j])@) == fanned(
                views(old(queues)@[j]@),
                ids@.contains(j as usize) && !skipped(skip, j as usize),
                update@,
            ),
{
    let ghost keys = ids.iter().remaining();
    let n = queues.len();
    for id in it: ids.iter()
        invariant
            it.seq() == keys,
            keys.no_duplicates(),
            keys.unref().to_set() == ids@,
            forall|id: usize| ids@.contains(id) ==> id < old(queues)@.len(),
            queues@.len() == old(queues)@.len(),
            n == old(queues)@.len(),
            forall|j: int|
                0 <= j < old(queues)@.len() ==> views((#[trigger] queues@[j])@) == fanned(
                    views(old(queues)@[j]@),
                    keys.unref().take(it.index()).contains(j as usize) && !skipped(
                        skip,
                        j as usize,
                    ),
                    update@,
                ),
    {
        let ghost before = queues@;
        let ghost done = keys.unref().take(it.index());
        let ghost next = keys.unref().take(it.index() + 1);
        proof {
            assert(keys.unref().to_set().contains(*id));
            assert(next =~= done.push(*id));
            assert(!done.contains(*id)) by {
                if done.contains(*id) {
                    let j = choose|j: int| 0 <= j < done.len() && done[j] == *id;
                    assert(keys[j] == keys[it.index()]);
                }
            }
        }
        let wanted = match skip {
            Some(others) => !others.contains(id),
            None => true,
        };
        if wanted {
            queues[*id].push(update.clone());
            proof {
                assert(views(queues@[*id as int]@) =~= views(before[*id as int]@).push(update@));
            }
        }
        proof {
            assert forall|j: int| 0 <= j < old(queues)@.len() implies views(
                (#[trigger] queues@[j])@,
            ) == fanned(
                views(old(queues)@[j]@),
                next.contains(j as usize) && !skipped(skip, j as usize),
                update@,
            ) by {
                let observer = j as usize;
                if done.contains(observer) {
                    let m = choose|m: int| 0 <= m < done.len() && done[m] == observer;
                    assert(next[m] == observer);
                }
                if observer == *id {
                    assert(next[done.len() as int] == observer);
                } else {
                    assert(queues@[j] == before[j]);
                    if next.contains(observer) {
                        let m = choose|m: int| 0 <= m < next.len() && next[m] == observer;
                        assert(done[m] == observer);
                    }
                }
            }
        }
    }
    proof {
        assert(keys.unref().take(keys.len() as int) =~= keys.unref());
        assert forall|j: usize| #[trigger] keys.unref().contains(j) == ids@.contains(j) by {
            assert(keys.unref().to_set().contains(j) == keys.unref().contains(j));
        }
    }
}

/// A queue after `update` is appended to it, if it is `hit`.
spec fn fanned(queue: Seq<UpdateView>, hit: bool, update: UpdateView) -> Seq<UpdateView> {
    if hit {
        queue.push(update)
    } else {
        queue
    }
}

/// Whether observer `id` is in `skip`.
spec fn skipped(skip: Option<&HashSet<usize>>, id: usize) -> bool {
    match skip {
        Some(others) => others@.contains(id),
        None => false,
    }
}

/// Whether the reverse index `index` agrees with the table `entries`: it
/// holds an observer under a key if the observer's set holds the key, holds
/// nothing else but observer `gone` under keys of `pending`, and holds no
/// empty set.
pub closed spec fn linked(
    entries: Map<usize, Set<u128>>,
    index: Map<u128, HashSet<usize>>,
    gone: usize,
    pending: Set<u128>,
) -> bool {
    &&& forall|id: usize, k: u128|
        entries.contains_key(id) && #[trigger] entries[id].contains(k) ==> {
            &&& is_chunk_key(k)
            &&& index.contains_key(k)
            &&& index[k]@.contains(id)
        }
    &&& forall|k: u128, id: usize|
        index.contains_key(k) && #[trigger] index[k]@.contains(id) ==> {
            ||| entries.contains_key(id) && entries[id].contains(k)
            ||| id == gone && pending.contains(k)
        }
    &&& forall|k: u128| #[trigger] index.contains_key(k) ==> index[k]@ != Set::<usize>::empty()
}

/// The keys of `keys` from position `from` on.
pub closed spec fn pending(keys: Seq<u128>, from: int) -> Set<u128> {
    Set::new(|k: u128| exists|j: int| from <= j < keys.len() && keys[j] == k)
}

/// The set of the first `i + 1` items is that of the first `i` with item `i`.
proof fn lemma_take_next_to_set(s: Seq<(usize, usize)>, i: int)
    requires
        0 <= i < s.len(),
    ensures
        s.take(i + 1).to_set() == s.take(i).to_set().insert(s[i]),
{
    let longer = s.take(i + 1);
    let shorter = s.take(i);
    assert forall|c: (usize, usize)| longer.to_set().contains(c) == shorter.to_set().insert(
        s[i],
    ).contains(c) by {
        if longer.contains(c) {
            let j = choose|j: int| 0 <= j < longer.len() && longer[j] == c;
            if j < i {
                assert(shorter[j] == c);
            }
        }
        if shorter.contains(c) {
            let j = choose|j: int| 0 <= j < shorter.len() && shorter[j] == c;
            assert(longer[j] == c);
        }
        if c == s[i] {
            assert(longer[i] == c);
        }
    }
    assert(longer.to_set() =~= shorter.to_set().insert(s[i]));
}

/// Enters observer `id` under `key` in the reverse index.
fn remember(index: &mut HashMap<u128, HashSet<usize>>, key: u128, id: usize)
    ensures
        final(index)@.dom() == old(index)@.dom().insert(key),
        final(index)@[key]@ == (if old(index)@.contains_key(key) {
            old(index)@[key]@
        } else {
            Set::<usize>::empty()
        }).insert(id),
        forall|k: u128| k != key && old(index)@.contains_key(k) ==> final(index)@[k] == old(index)@[k],
{
    index.entry(key).or_insert(HashSet::new()).insert(id);
    assert(index@.dom() =~= old(index)@.dom().insert(key));
}

/// Takes observer `id` out from under `key` in the reverse index, and the
/// key with it if no observer is left under it.
fn forget(index: &mut HashMap<u128, HashSet<usize>>, key: u128, id: usize)
    ensures
        forall|k: u128|
            k != key ==> final(index)@.contains_key(k) == old(index)@.contains_key(k),
        forall|k: u128| k != key && old(index)@.contains_key(k) ==> final(index)@[k] == old(index)@[k],
        forall|j: usize|
            j != id && old(index)@.contains_key(key) && #[trigger] old(index)@[key]@.contains(j)
                ==> final(index)@.contains_key(key),
        final(index)@.contains_key(key) ==> {
            &&& old(index)@.contains_key(key)
            &&& final(index)@[key]@ == old(index)@[key]@.remove(id)
            &&& final(index)@[key]@ != Set::<usize>::empty()
        },
{
    match index.entry(key) {
        Entry::Occupied(entry) => {
            let mut entry = entry;
            entry.get_mut().remove(&id);
            if entry.get().is_empty() {
                let ghost left = entry.value()@;
                entry.remove();
                assert forall|j: usize| j != id implies !old(index)@[key]@.contains(j) by {
                    if old(index)@[key]@.contains(j) {
                        assert(left.contains(j));
                    }
                }
            }
        },
        Entry::Vacant(_) => {},
    }
}

} // verus!
