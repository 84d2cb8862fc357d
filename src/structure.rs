use vstd::prelude::*;

use crate::counts::{calc_counts, counts_current};
use crate::engine::Engine;
use crate::catalog::{def_of, get_def};
use crate::flow::{laid_out, lemma_projects_frame, opens_hidden, staves_laid_out, staves_tracked, torn_down, Flow};
use crate::keys::shortid;
use crate::keyed::{find, has_key, keyed, lemma_keyed_index, lemma_keyed_remove, lemma_keyed_update, Keyed};
use crate::score::{AutoCountStyle, Instrument, Player, PlayerType};
use crate::track::{copy_keys, key_views, keys_distinct, without_key};

verus! {

/// The stave keys of the instruments of keys `ks` that `m` holds, in
/// order.
pub open spec fn staves_of(ks: Seq<Seq<char>>, m: Map<Seq<char>, Instrument>) -> Seq<Seq<char>>
    decreases ks.len(),
{
    if ks.len() == 0 {
        Seq::empty()
    } else {
        staves_of(ks.drop_last(), m) + if m.contains_key(ks.last()) {
            key_views(m[ks.last()].staves@)
        } else {
            Seq::empty()
        }
    }
}

impl Engine {
    /// The players by key.
    pub open spec fn player_map(&self) -> Map<Seq<char>, Player> {
        keyed(self.state.score.players.order@)
    }

    /// The instruments by key.
    pub open spec fn instrument_map(&self) -> Map<Seq<char>, Instrument> {
        keyed(self.state.score.instruments@)
    }

    /// Some instrument lists stave key `s`, or some flow holds a stave under
    /// it.
    pub open spec fn stave_key_in_use(&self, s: Seq<char>) -> bool {
        ||| exists|i: int|
            0 <= i < self.state.score.instruments@.len() && key_views(
                (#[trigger] self.state.score.instruments@[i]).staves@,
            ).contains(s)
        ||| exists|j: int|
            0 <= j < self.state.score.flows.order@.len() && (#[trigger] self.state.score.flows.order@[j]).stave_map().contains_key(s)
    }

    /// Whether stave key `key` is in use in the score.
    pub fn stave_key_used(&self, key: &str) -> (r: bool)
        ensures
            r == self.stave_key_in_use(key@),
    {
        let wanted = key.to_owned();
        let insts = &self.state.score.instruments;
        let mut i: usize = 0;
        while i < insts.len()
            invariant
                insts == &self.state.score.instruments,
                wanted@ == key@,
                i <= insts@.len(),
                forall|p: int| 0 <= p < i ==> !key_views((#[trigger] insts@[p]).staves@).contains(key@),
            decreases insts.len() - i,
        {
            let staves = &insts[i].staves;
            let mut q: usize = 0;
            while q < staves.len()
                invariant
                    insts == &self.state.score.instruments,
                    i < insts@.len(),
                    staves@ == insts@[i as int].staves@,
                    wanted@ == key@,
                    q <= staves@.len(),
                    forall|p: int| 0 <= p < q ==> #[trigger] staves@[p]@ != key@,
                decreases staves.len() - q,
            {
                if staves[q] == wanted {
                    assert(key_views(staves@)[q as int] == key@);
                    assert(key_views(insts@[i as int].staves@).contains(key@));
                    assert(key_views(self.state.score.instruments@[i as int].staves@).contains(key@));
                    return true;
                }
                q = q + 1;
            }
            proof {
                if key_views(staves@).contains(key@) {
                    let p = choose|p: int| 0 <= p < key_views(staves@).len() && key_views(staves@)[p] == key@;
                    assert(staves@[p]@ == key@);
                }
            }
            i = i + 1;
        }
        let flows = &self.state.score.flows.order;
        let mut j: usize = 0;
        while j < flows.len()
            invariant
                flows == &self.state.score.flows.order,
                insts == &self.state.score.instruments,
                j <= flows@.len(),
                forall|p: int| 0 <= p < insts@.len() ==> !key_views((#[trigger] insts@[p]).staves@).contains(key@),
                forall|p: int| 0 <= p < j ==> !(#[trigger] flows@[p]).stave_map().contains_key(key@),
            decreases flows.len() - j,
        {
            if let Some(at) = find(&flows[j].staves, key) {
                proof {
                    assert(flows@[j as int].staves@[at as int].key_of() == key@);
                    assert(has_key(flows@[j as int].staves@, key@));
                }
                return true;
            }
            j = j + 1;
        }
        false
    }

    /// Every flow that player `player_key` takes part in holds a stave under
    /// each key of `staves`.
    pub open spec fn staves_present(&self, player_key: Seq<char>, staves: Seq<Seq<char>>) -> bool {
        forall|j: int, s: Seq<char>|
            0 <= j < self.state.score.flows.order@.len() && (#[trigger] self.state.score.flows.order@[j]).has_player(
                player_key,
            ) && #[trigger] staves.contains(s) ==> self.state.score.flows.order@[j].stave_map().contains_key(s)
    }

    /// Whether every flow that player `player_key` takes part in holds a
    /// stave under each key of `staves`.
    pub fn check_staves_present(&self, player_key: &str, staves: &Vec<String>) -> (r: bool)
        ensures
            r == self.staves_present(player_key@, key_views(staves@)),
    {
        let flows = &self.state.score.flows.order;
        let mut i: usize = 0;
        while i < flows.len()
            invariant
                flows == &self.state.score.flows.order,
                i <= flows@.len(),
                forall|j: int, s: Seq<char>|
                    0 <= j < i && (#[trigger] flows@[j]).has_player(player_key@) && #[trigger] key_views(staves@).contains(s)
                        ==> flows@[j].stave_map().contains_key(s),
            decreases flows.len() - i,
        {
            if flows[i].contains_player(player_key) {
                let mut q: usize = 0;
                while q < staves.len()
                    invariant
                        flows == &self.state.score.flows.order,
                        i < flows@.len(),
                        q <= staves@.len(),
                        flows@[i as int].has_player(player_key@),
                        forall|j: int, s: Seq<char>|
                            0 <= j < i && (#[trigger] flows@[j]).has_player(player_key@) && #[trigger] key_views(
                                staves@,
                            ).contains(s) ==> flows@[j].stave_map().contains_key(s),
                        forall|s: Seq<char>|
                            #[trigger] key_views(staves@).take(q as int).contains(s) ==> flows@[i as int].stave_map().contains_key(s),
                    decreases staves.len() - q,
                {
                    assert(key_views(staves@).take(q + 1) =~= key_views(staves@).take(q as int).push(staves@[q as int]@));
                    proof {
                        vstd::seq_lib::lemma_seq_contains_after_push(key_views(staves@).take(q as int), staves@[q as int]@, staves@[q as int]@);
                        assert forall|s: Seq<char>| #[trigger] key_views(staves@).take(q + 1).contains(s) implies key_views(staves@).take(q as int).contains(s) || s == staves@[q as int]@ by {
                            vstd::seq_lib::lemma_seq_contains_after_push(key_views(staves@).take(q as int), staves@[q as int]@, s);
                        }
                    }
                    let found = find(&flows[i].staves, staves[q].as_str());
                    if let Some(at) = found {
                        proof {
                            assert(flows@[i as int].staves@[at as int].key_of() == staves@[q as int]@);
                            assert(has_key(flows@[i as int].staves@, staves@[q as int]@));
                            assert(flows@[i as int].stave_map().contains_key(staves@[q as int]@));
                        }
                    } else {
                        proof {
                            assert(key_views(staves@)[q as int] == staves@[q as int]@);
                            assert(!self.staves_present(player_key@, key_views(staves@))) by {
                                assert(flows@[i as int].has_player(player_key@) && key_views(staves@).contains(staves@[q as int]@));
                            }
                        }
                        return false;
                    }
                    q = q + 1;
                }
                assert(key_views(staves@).take(staves@.len() as int) =~= key_views(staves@));
            }
            i = i + 1;
        }
        true
    }

    /// Tear the staves of keys `staves`, and their tracks, out of every flow
    /// that player `player_key` takes part in.
    fn teardown(&mut self, player_key: &str, staves: &Vec<String>)
        requires
            old(self).wf(),
        ensures
            final(self).wf(),
            final(self).catalog == old(self).catalog,
            final(self).state.ticks == old(self).state.ticks,
            final(self).state.score.players == old(self).state.score.players,
            final(self).state.score.instruments == old(self).state.score.instruments,
            final(self).state.score.flows.order@.len() == old(self).state.score.flows.order@.len(),
            forall|j: int|
                0 <= j < old(self).state.score.flows.order@.len() ==> {
                    let before = old(self).state.score.flows.order@[j];
                    let after = #[trigger] final(self).state.score.flows.order@[j];
                    &&& before.has_player(player_key@) ==> torn_down(before, after, key_views(staves@))
                        && after.players == before.players
                    &&& !before.has_player(player_key@) ==> after == before
                },
    {
        let ghost pre = *self;
        let mut i: usize = 0;
        while i < self.state.score.flows.order.len()
            invariant
                self.wf(),
                i <= self.state.score.flows.order@.len(),
                self.catalog == pre.catalog,
                self.state.ticks == pre.state.ticks,
                self.state.score.players == pre.state.score.players,
                self.state.score.instruments == pre.state.score.instruments,
                self.state.score.flows.order@.len() == pre.state.score.flows.order@.len(),
                forall|j: int|
                    0 <= j < i ==> {
                        let before = pre.state.score.flows.order@[j];
                        let after = #[trigger] self.state.score.flows.order@[j];
                        &&& before.has_player(player_key@) ==> torn_down(before, after, key_views(staves@))
                            && after.players == before.players
                        &&& !before.has_player(player_key@) ==> after == before
                    },
                forall|j: int|
                    i <= j < self.state.score.flows.order@.len() ==> #[trigger] self.state.score.flows.order@[j]
                        == pre.state.score.flows.order@[j],
            decreases self.state.score.flows.order.len() - i,
        {
            let ghost before = self.state.score.flows.order@;
            if self.state.score.flows.order[i].contains_player(player_key) {
                let flow = &mut self.state.score.flows.order[i];
                flow.remove_staves(staves);
                proof {
                    let after = self.state.score.flows.order@;
                    assert(after == before.update(i as int, after[i as int]));
                    lemma_keyed_update(before, i as int, after[i as int]);
                    lemma_projects_frame(before[i as int], after[i as int], self.state.ticks@[i as int]);
                    assert forall|j: int| 0 <= j < after.len() implies (#[trigger] after[j]).wf() by {
                        if j != i {
                            assert(after[j] == before[j]);
                        }
                    }
                    assert forall|j: int| 0 <= j < self.state.ticks@.len() implies #[trigger] after[j].projects(
                        self.state.ticks@[j],
                    ) by {
                        if j != i {
                            assert(after[j] == before[j]);
                        }
                    }
                }
            }
            i = i + 1;
        }
    }

    /// Take instrument `instrument_key` from player `player_key` and out of
    /// the score: in every flow the player takes part in, the instrument's
    /// staves and the tracks drawn on them go too; then the instruments are
    /// numbered anew. `false`, with nothing changed, when the player or the
    /// instrument is missing, or when a flow the player takes part in lacks
    /// one of the instrument's staves.
    pub fn remove_instrument(&mut self, player_key: &str, instrument_key: &str) -> (r: bool)
        requires
            old(self).wf(),
        ensures
            final(self).wf(),
            final(self).catalog == old(self).catalog,
            r == (old(self).player_map().contains_key(player_key@) && old(self).instrument_map().contains_key(
                instrument_key@,
            ) && old(self).staves_present(
                player_key@,
                key_views(old(self).instrument_map()[instrument_key@].staves@),
            )),
            !r ==> final(self).state == old(self).state,
            forall|k: Seq<char>| #[trigger]
                final(self).player_map().contains_key(k) == old(self).player_map().contains_key(k),
            r ==> ({
                let staves = key_views(old(self).instrument_map()[instrument_key@].staves@);
                &&& final(self).state.score.flows.order@.len() == old(self).state.score.flows.order@.len()
                &&& forall|j: int|
                    0 <= j < old(self).state.score.flows.order@.len() ==> {
                        let before = old(self).state.score.flows.order@[j];
                        let after = #[trigger] final(self).state.score.flows.order@[j];
                        &&& before.has_player(player_key@) ==> torn_down(before, after, staves)
                            && after.players == before.players
                        &&& !before.has_player(player_key@) ==> after == before
                    }
                &&& forall|k: Seq<char>| #[trigger]
                    final(self).instrument_map().contains_key(k) <==> old(self).instrument_map().contains_key(k)
                        && k != instrument_key@
                &&& final(self).player_map().contains_key(player_key@)
                &&& forall|x: Seq<char>| #[trigger]
                    key_views(final(self).player_map()[player_key@].instruments@).contains(x) <==> key_views(
                        old(self).player_map()[player_key@].instruments@,
                    ).contains(x) && x != instrument_key@
                &&& counts_current(final(self).state.score)
            }),
    {
        let p = match find(&self.state.score.players.order, player_key) {
            Some(p) => p,
            None => return false,
        };
        let m = match find(&self.state.score.instruments, instrument_key) {
            Some(m) => m,
            None => return false,
        };
        let ghost pre = *self;
        proof {
            lemma_keyed_index(pre.state.score.players.order@, p as int);
            lemma_keyed_index(pre.state.score.instruments@, m as int);
        }
        let staves = copy_keys(&self.state.score.instruments[m].staves);
        if !self.check_staves_present(player_key, &staves) {
            return false;
        }
        let kept = without_key(&self.state.score.players.order[p].instruments, instrument_key);
        let player = &mut self.state.score.players.order[p];
        player.instruments = kept;
        proof {
            let after = self.state.score.players.order@;
            assert(after == pre.state.score.players.order@.update(p as int, after[p as int]));
            lemma_keyed_update(pre.state.score.players.order@, p as int, after[p as int]);
        }
        let ghost mid = *self;
        self.teardown(player_key, &staves);
        let ghost before_remove = self.state.score.instruments@;
        proof {
            lemma_keyed_remove(before_remove, m as int);
        }
        self.state.score.instruments.remove(m);
        proof {
            assert forall|q: int| 0 <= q < self.state.score.instruments@.len() implies key_views(
                (#[trigger] self.state.score.instruments@[q]).staves@,
            ).no_duplicates() by {
                let pq = if q < m { q } else { q + 1 };
                assert(self.state.score.instruments@[q] == before_remove[pq]);
            }
        }
        let ghost before_counts = *self;
        calc_counts(self);
        proof {
            assert forall|k: Seq<char>| #[trigger] has_key(self.state.score.instruments@, k) == has_key(
                before_counts.state.score.instruments@,
                k,
            ) by {
                if has_key(before_counts.state.score.instruments@, k) {
                    let q = choose|q: int|
                        0 <= q < before_counts.state.score.instruments@.len()
                            && #[trigger] before_counts.state.score.instruments@[q].key_of() == k;
                    assert(self.state.score.instruments@[q].key_of() == k);
                }
                if has_key(self.state.score.instruments@, k) {
                    let q = choose|q: int|
                        0 <= q < self.state.score.instruments@.len() && #[trigger] self.state.score.instruments@[q].key_of()
                            == k;
                    assert(before_counts.state.score.instruments@[q].key_of() == k);
                }
            }
            let staves_v = key_views(pre.instrument_map()[instrument_key@].staves@);
            assert(key_views(staves@) == staves_v);
            assert(self.state.score.flows == before_counts.state.score.flows);
            assert(self.state.score.flows.order@.len() == pre.state.score.flows.order@.len());
            assert forall|k: Seq<char>| #[trigger]
                self.instrument_map().contains_key(k) <==> pre.instrument_map().contains_key(k) && k != instrument_key@ by {
                assert(self.instrument_map().contains_key(k) == has_key(self.state.score.instruments@, k));
                assert(before_counts.instrument_map().contains_key(k) == has_key(before_counts.state.score.instruments@, k));
            }
            assert(self.player_map().contains_key(player_key@));
            assert forall|k: Seq<char>| #[trigger] self.player_map().contains_key(k) == pre.player_map().contains_key(k) by {
                assert(self.player_map() == mid.player_map());
            }
        }
        true
    }

    /// Lay out the staves of instrument `m` in every flow that player
    /// `player_key` takes part in.
    fn lay_out(&mut self, player_key: &str, m: usize)
        requires
            old(self).wf(),
            m < old(self).state.score.instruments@.len(),
        ensures
            final(self).wf(),
            final(self).catalog == old(self).catalog,
            final(self).state.ticks == old(self).state.ticks,
            final(self).state.score.players == old(self).state.score.players,
            final(self).state.score.instruments == old(self).state.score.instruments,
            final(self).state.score.flows.order@.len() == old(self).state.score.flows.order@.len(),
            forall|j: int|
                0 <= j < old(self).state.score.flows.order@.len() ==> {
                    let before = old(self).state.score.flows.order@[j];
                    let after = #[trigger] final(self).state.score.flows.order@[j];
                    &&& before.has_player(player_key@) ==> laid_out(
                        before,
                        after,
                        old(self).state.score.instruments@[m as int],
                        old(self).catalog@,
                    )
                    &&& !before.has_player(player_key@) ==> after == before
                },
    {
        let ghost pre = *self;
        let mut i: usize = 0;
        while i < self.state.score.flows.order.len()
            invariant
                self.wf(),
                m < self.state.score.instruments@.len(),
                i <= self.state.score.flows.order@.len(),
                self.catalog == pre.catalog,
                self.state.ticks == pre.state.ticks,
                self.state.score.players == pre.state.score.players,
                self.state.score.instruments == pre.state.score.instruments,
                self.state.score.flows.order@.len() == pre.state.score.flows.order@.len(),
                forall|j: int|
                    0 <= j < i ==> {
                        let before = pre.state.score.flows.order@[j];
                        let after = #[trigger] self.state.score.flows.order@[j];
                        &&& before.has_player(player_key@) ==> laid_out(
                            before,
                            after,
                            pre.state.score.instruments@[m as int],
                            pre.catalog@,
                        )
                        &&& !before.has_player(player_key@) ==> after == before
                    },
                forall|j: int|
                    i <= j < self.state.score.flows.order@.len() ==> #[trigger] self.state.score.flows.order@[j]
                        == pre.state.score.flows.order@[j],
            decreases self.state.score.flows.order.len() - i,
        {
            let ghost before = self.state.score.flows.order@;
            if self.state.score.flows.order[i].contains_player(player_key) {
                let flow = &mut self.state.score.flows.order[i];
                flow.add_instrument(&self.state.score.instruments[m], &self.catalog);
                proof {
                    let after = self.state.score.flows.order@;
                    assert(after == before.update(i as int, after[i as int]));
                    lemma_keyed_update(before, i as int, after[i as int]);
                    lemma_projects_frame(before[i as int], after[i as int], self.state.ticks@[i as int]);
                    assert forall|j: int| 0 <= j < after.len() implies (#[trigger] after[j]).wf() by {
                        if j != i {
                            assert(after[j] == before[j]);
                        }
                    }
                    assert forall|j: int| 0 <= j < self.state.ticks@.len() implies #[trigger] after[j].projects(
                        self.state.ticks@[j],
                    ) by {
                        if j != i {
                            assert(after[j] == before[j]);
                        }
                    }
                }
            }
            i = i + 1;
        }
    }

    /// Give instrument `instrument_key` to player `player_key`, lay out its
    /// staves in every flow the player takes part in, and number the
    /// instruments anew. `false`, with nothing changed, when the player or
    /// the instrument is missing.
    pub fn assign_instrument(&mut self, player_key: &str, instrument_key: &str) -> (r: bool)
        requires
            old(self).wf(),
        ensures
            final(self).wf(),
            final(self).catalog == old(self).catalog,
            r == (old(self).player_map().contains_key(player_key@) && old(self).instrument_map().contains_key(
                instrument_key@,
            )),
            !r ==> final(self).state == old(self).state,
            r ==> ({
                let inst = old(self).instrument_map()[instrument_key@];
                &&& final(self).state.score.flows.order@.len() == old(self).state.score.flows.order@.len()
                &&& forall|j: int|
                    0 <= j < old(self).state.score.flows.order@.len() ==> {
                        let before = old(self).state.score.flows.order@[j];
                        let after = #[trigger] final(self).state.score.flows.order@[j];
                        &&& before.has_player(player_key@) ==> laid_out(before, after, inst, old(self).catalog@)
                        &&& !before.has_player(player_key@) ==> after == before
                    }
                &&& final(self).player_map().contains_key(player_key@)
                &&& key_views(final(self).player_map()[player_key@].instruments@) == key_views(
                    old(self).player_map()[player_key@].instruments@,
                ).push(instrument_key@)
                &&& counts_current(final(self).state.score)
            }),
    {
        let p = match find(&self.state.score.players.order, player_key) {
            Some(p) => p,
            None => return false,
        };
        let m = match find(&self.state.score.instruments, instrument_key) {
            Some(m) => m,
            None => return false,
        };
        let ghost pre = *self;
        proof {
            lemma_keyed_index(pre.state.score.players.order@, p as int);
            lemma_keyed_index(pre.state.score.instruments@, m as int);
        }
        let player = &mut self.state.score.players.order[p];
        let ghost list = player.instruments@;
        let k = instrument_key.to_owned();
        player.instruments.push(k);
        proof {
            crate::track::lemma_key_views_push(list, k);
            let after = self.state.score.players.order@;
            assert(after == pre.state.score.players.order@.update(p as int, after[p as int]));
            lemma_keyed_update(pre.state.score.players.order@, p as int, after[p as int]);
        }
        self.lay_out(player_key, m);
        calc_counts(self);
        true
    }

    /// A new instrument made from the catalog definition `id`, with a fresh
    /// stave key for each stave the definition describes (see
    /// `insert_instrument`); its key is handed back. `None`, with nothing
    /// changed, when the catalog has no such definition.
    pub fn create_instrument(&mut self, id: &str) -> (r: Option<String>)
        requires
            old(self).wf(),
        ensures
            final(self).wf(),
            final(self).catalog == old(self).catalog,
            final(self).state.score.flows == old(self).state.score.flows,
            final(self).state.score.players == old(self).state.score.players,
            def_of(old(self).catalog@, id@) is None ==> r is None,
            r is None ==> final(self).state == old(self).state,
            r matches Some(k) ==> ({
                let def = def_of(old(self).catalog@, id@)->Some_0;
                let inst = final(self).instrument_map()[k@];
                &&& def_of(old(self).catalog@, id@) is Some
                &&& !old(self).instrument_map().contains_key(k@)
                &&& final(self).instrument_map() == old(self).instrument_map().insert(k@, inst)
                &&& inst.id@ == id@ && inst.long_name@ == def.long_name@ && inst.short_name@ == def.short_name@
                &&& inst.staves@.len() == def.staves@.len()
                &&& inst.count is None
                &&& key_views(inst.staves@).no_duplicates()
                &&& forall|q: int| 0 <= q < inst.staves@.len() ==> !old(self).stave_key_in_use(#[trigger] inst.staves@[q]@)
            }),
    {
        let def = match get_def(&self.catalog, id) {
            Some(def) => def,
            None => return None,
        };
        let mut staves: Vec<String> = Vec::new();
        let mut i: usize = 0;
        while i < def.staves.len()
            invariant
                i <= def.staves@.len(),
                staves@.len() == i,
            decreases def.staves.len() - i,
        {
            staves.push(shortid());
            i = i + 1;
        }
        let key = shortid();
        let instrument = Instrument {
            key: key.clone(),
            id: id.to_owned(),
            long_name: def.long_name.clone(),
            short_name: def.short_name.clone(),
            staves,
            count: None,
        };
        if self.insert_instrument(instrument) {
            Some(key)
        } else {
            None
        }
    }

    /// Add `instrument` to the score; `false`, with nothing changed, when
    /// its key is in use or two of its stave keys are the same.
    pub fn insert_instrument(&mut self, instrument: Instrument) -> (r: bool)
        requires
            old(self).wf(),
        ensures
            final(self).wf(),
            final(self).catalog == old(self).catalog,
            final(self).state.score.flows == old(self).state.score.flows,
            final(self).state.score.players == old(self).state.score.players,
            r == (!old(self).instrument_map().contains_key(instrument.key@) && key_views(instrument.staves@).no_duplicates()
                && forall|q: int| 0 <= q < instrument.staves@.len() ==> !old(self).stave_key_in_use(#[trigger] instrument.staves@[q]@)),
            !r ==> final(self).state == old(self).state,
            r ==> final(self).state.score.instruments@ == old(self).state.score.instruments@.push(instrument),
            r ==> final(self).instrument_map() == old(self).instrument_map().insert(instrument.key@, instrument),
    {
        if find(&self.state.score.instruments, instrument.key.as_str()).is_some() {
            return false;
        }
        if !keys_distinct(&instrument.staves) {
            return false;
        }
        let mut q: usize = 0;
        while q < instrument.staves.len()
            invariant
                *self == *old(self),
                self.wf(),
                q <= instrument.staves@.len(),
                forall|p: int| 0 <= p < q ==> !self.stave_key_in_use(#[trigger] instrument.staves@[p]@),
            decreases instrument.staves.len() - q,
        {
            if self.stave_key_used(instrument.staves[q].as_str()) {
                return false;
            }
            q = q + 1;
        }
        let ghost before = self.state.score.instruments@;
        proof {
            crate::keyed::lemma_keyed_push(before, instrument);
        }
        self.state.score.instruments.push(instrument);
        proof {
            assert forall|q: int| 0 <= q < self.state.score.instruments@.len() implies key_views(
                (#[trigger] self.state.score.instruments@[q]).staves@,
            ).no_duplicates() by {
                if q < before.len() {
                    assert(self.state.score.instruments@[q] == before[q]);
                }
            }
        }
        true
    }

    /// Add `player` to the roster and let it take part in every flow;
    /// `false`, with nothing changed, when its key is in use.
    pub fn insert_player(&mut self, player: Player) -> (r: bool)
        requires
            old(self).wf(),
        ensures
            final(self).wf(),
            final(self).catalog == old(self).catalog,
            final(self).state.score.instruments == old(self).state.score.instruments,
            r == !old(self).player_map().contains_key(player.key@),
            !r ==> final(self).state == old(self).state,
            r ==> ({
                let k = player.key;
                &&& final(self).player_map() == old(self).player_map().insert(k@, player)
                &&& final(self).state.score.players.order@ == old(self).state.score.players.order@.push(player)
                &&& final(self).state.score.flows.order@.len() == old(self).state.score.flows.order@.len()
                &&& forall|j: int|
                    0 <= j < old(self).state.score.flows.order@.len() ==> {
                        let before = old(self).state.score.flows.order@[j];
                        let after = #[trigger] final(self).state.score.flows.order@[j];
                        &&& forall|x: Seq<char>| #[trigger] after.has_player(x) <==> before.has_player(x) || x == k@
                        &&& after.key == before.key && after.master == before.master && after.staves == before.staves
                            && after.tracks == before.tracks && after.length == before.length
                    }
            }),
    {
        if find(&self.state.score.players.order, player.key.as_str()).is_some() {
            return false;
        }
        let key = player.key.clone();
        let ghost pre = *self;
        let mut i: usize = 0;
        while i < self.state.score.flows.order.len()
            invariant
                self.wf(),
                i <= self.state.score.flows.order@.len(),
                self.catalog == pre.catalog,
                self.state.ticks == pre.state.ticks,
                self.state.score.players == pre.state.score.players,
                self.state.score.instruments == pre.state.score.instruments,
                self.state.score.flows.order@.len() == pre.state.score.flows.order@.len(),
                forall|j: int|
                    0 <= j < i ==> {
                        let before = pre.state.score.flows.order@[j];
                        let after = #[trigger] self.state.score.flows.order@[j];
                        &&& forall|x: Seq<char>| #[trigger] after.has_player(x) <==> before.has_player(x) || x == key@
                        &&& after.key == before.key && after.master == before.master && after.staves == before.staves
                            && after.tracks == before.tracks && after.length == before.length
                    },
                forall|j: int|
                    i <= j < self.state.score.flows.order@.len() ==> #[trigger] self.state.score.flows.order@[j]
                        == pre.state.score.flows.order@[j],
            decreases self.state.score.flows.order.len() - i,
        {
            let ghost before = self.state.score.flows.order@;
            let flow = &mut self.state.score.flows.order[i];
            flow.add_player(key.clone());
            proof {
                let after = self.state.score.flows.order@;
                assert(after == before.update(i as int, after[i as int]));
                lemma_keyed_update(before, i as int, after[i as int]);
                lemma_projects_frame(before[i as int], after[i as int], self.state.ticks@[i as int]);
                assert forall|j: int| 0 <= j < after.len() implies (#[trigger] after[j]).wf() by {
                    if j != i {
                        assert(after[j] == before[j]);
                    }
                }
                assert forall|j: int| 0 <= j < self.state.ticks@.len() implies #[trigger] after[j].projects(
                    self.state.ticks@[j],
                ) by {
                    if j != i {
                        assert(after[j] == before[j]);
                    }
                }
            }
            i = i + 1;
        }
        let ghost before = self.state.score.players.order@;
        proof {
            crate::keyed::lemma_keyed_push(before, player);
            lemma_keyed_index(before.push(player), before.len() as int);
        }
        self.state.score.players.order.push(player);
        true
    }

    /// A new player of type `player_type` (see `insert_player`), under a
    /// fresh key that is handed back.
    pub fn create_player(&mut self, player_type: PlayerType) -> (r: Option<String>)
        requires
            old(self).wf(),
        ensures
            final(self).wf(),
            final(self).catalog == old(self).catalog,
            final(self).state.score.instruments == old(self).state.score.instruments,
            r is None ==> final(self).state == old(self).state,
            r matches Some(k) ==> ({
                let p = final(self).player_map()[k@];
                &&& !old(self).player_map().contains_key(k@)
                &&& final(self).player_map() == old(self).player_map().insert(k@, p)
                &&& final(self).state.score.players.order@ == old(self).state.score.players.order@.push(p)
                &&& p.player_type == player_type && p.instruments@.len() == 0
                &&& final(self).state.score.flows.order@.len() == old(self).state.score.flows.order@.len()
                &&& forall|j: int|
                    0 <= j < old(self).state.score.flows.order@.len() ==> {
                        let before = old(self).state.score.flows.order@[j];
                        let after = #[trigger] final(self).state.score.flows.order@[j];
                        &&& forall|x: Seq<char>| #[trigger] after.has_player(x) <==> before.has_player(x) || x == k@
                        &&& after.key == before.key && after.master == before.master && after.staves == before.staves
                            && after.tracks == before.tracks && after.length == before.length
                    }
            }),
    {
        let player = Player::new(player_type);
        let key = player.key.clone();
        if self.insert_player(player) {
            proof {
                lemma_keyed_index(self.state.score.players.order@, self.state.score.players.order@.len() - 1);
            }
            Some(key)
        } else {
            None
        }
    }

    /// Rename flow `flow_key`; `false`, with nothing changed, when there is
    /// no such flow.
    pub fn rename_flow(&mut self, flow_key: &str, name: &str) -> (r: bool)
        requires
            old(self).wf(),
        ensures
            final(self).wf(),
            final(self).catalog == old(self).catalog,
            r == old(self).flow_map().contains_key(flow_key@),
            !r ==> final(self).state == old(self).state,
            r ==> final(self).flow_map() == old(self).flow_map().insert(flow_key@, final(self).flow_map()[flow_key@]),
            r ==> final(self).flow_map()[flow_key@] == (Flow {
                title: final(self).flow_map()[flow_key@].title,
                ..old(self).flow_map()[flow_key@]
            }),
            r ==> final(self).flow_map()[flow_key@].title@ == name@,
    {
        let i = match find(&self.state.score.flows.order, flow_key) {
            Some(i) => i,
            None => return false,
        };
        let ghost before = self.state.score.flows.order@;
        proof {
            lemma_keyed_index(before, i as int);
        }
        let flow = &mut self.state.score.flows.order[i];
        flow.title = name.to_owned();
        proof {
            let after = self.state.score.flows.order@;
            assert(after == before.update(i as int, after[i as int]));
            lemma_keyed_update(before, i as int, after[i as int]);
            lemma_keyed_index(after, i as int);
            lemma_projects_frame(before[i as int], after[i as int], self.state.ticks@[i as int]);
        }
        true
    }

    /// Set the length of flow `flow_key` and lay out its tick strip anew;
    /// `false`, with nothing changed, when there is no such flow or the
    /// length leaves no room for the closing tick.
    pub fn set_flow_length(&mut self, flow_key: &str, length: u32) -> (r: bool)
        requires
            old(self).wf(),
        ensures
            final(self).wf(),
            final(self).catalog == old(self).catalog,
            r == (old(self).flow_map().contains_key(flow_key@) && length < u32::MAX),
            !r ==> final(self).state == old(self).state,
            r ==> final(self).flow_map() == old(self).flow_map().insert(flow_key@, final(self).flow_map()[flow_key@]),
            r ==> final(self).flow_map()[flow_key@] == (Flow { length, ..old(self).flow_map()[flow_key@] }),
    {
        if length == u32::MAX {
            return false;
        }
        let i = match find(&self.state.score.flows.order, flow_key) {
            Some(i) => i,
            None => return false,
        };
        let ghost before = self.state.score.flows.order@;
        proof {
            lemma_keyed_index(before, i as int);
        }
        let flow = &mut self.state.score.flows.order[i];
        flow.length = length;
        proof {
            let after = self.state.score.flows.order@;
            assert(after == before.update(i as int, after[i as int]));
            lemma_keyed_update(before, i as int, after[i as int]);
            lemma_keyed_index(after, i as int);
            assert forall|j: int| 0 <= j < after.len() implies (#[trigger] after[j]).wf() by {
                if j != i {
                    assert(after[j] == before[j]);
                }
            }
        }
        self.refresh_ticks(i);
        true
    }

    /// Take flow `flow_key` and its tick strip out of the score; `false`,
    /// with nothing changed, when there is no such flow.
    pub fn remove_flow(&mut self, flow_key: &str) -> (r: bool)
        requires
            old(self).wf(),
        ensures
            final(self).wf(),
            final(self).catalog == old(self).catalog,
            r == old(self).flow_map().contains_key(flow_key@),
            final(self).flow_map() == old(self).flow_map().remove(flow_key@),
            !r ==> final(self).state == old(self).state,
            final(self).state.score.players == old(self).state.score.players,
            final(self).state.score.instruments == old(self).state.score.instruments,
    {
        let i = match find(&self.state.score.flows.order, flow_key) {
            Some(i) => i,
            None => {
                assert(old(self).flow_map().remove(flow_key@) =~= old(self).flow_map());
                return false;
            },
        };
        let ghost before = self.state.score.flows.order@;
        let ghost ticks = self.state.ticks@;
        proof {
            lemma_keyed_index(before, i as int);
            lemma_keyed_remove(before, i as int);
        }
        self.state.score.flows.order.remove(i);
        self.state.ticks.remove(i);
        proof {
            let after = self.state.score.flows.order@;
            assert forall|j: int| 0 <= j < after.len() implies (#[trigger] after[j]).wf() by {
                let pj = if j < i { j } else { j + 1 };
                assert(after[j] == before[pj]);
            }
            assert forall|j: int| 0 <= j < self.state.ticks@.len() implies #[trigger] after[j].projects(
                self.state.ticks@[j],
            ) by {
                let pj = if j < i { j } else { j + 1 };
                assert(after[j] == before[pj]);
                assert(self.state.ticks@[j] == ticks[pj]);
            }
        }
        true
    }

    /// Move the flow at `old_index` to `new_index`; `false`, with nothing
    /// changed, when either lies outside the list.
    pub fn reorder_flow(&mut self, old_index: u8, new_index: u8) -> (r: bool)
        requires
            old(self).wf(),
        ensures
            final(self).wf(),
            final(self).catalog == old(self).catalog,
            r == (old_index < old(self).state.score.flows.order@.len() && new_index < old(self).state.score.flows.order@.len()),
            !r ==> final(self).state == old(self).state,
            r ==> final(self).state.score.flows.order@ == old(self).state.score.flows.order@.remove(old_index as int).insert(
                new_index as int,
                old(self).state.score.flows.order@[old_index as int],
            ),
    {
        let n = self.state.score.flows.order.len();
        if old_index as usize >= n || new_index as usize >= n {
            return false;
        }
        let ghost before = self.state.score.flows.order@;
        let ghost ticks = self.state.ticks@;
        let flow = self.state.score.flows.order.remove(old_index as usize);
        let tl = self.state.ticks.remove(old_index as usize);
        self.state.score.flows.order.insert(new_index as usize, flow);
        self.state.ticks.insert(new_index as usize, tl);
        proof {
            let o = old_index as int;
            let m = new_index as int;
            let after = self.state.score.flows.order@;
            let src = |j: int| if j == m { o } else {
                let r = if j < m { j } else { j - 1 };
                if r < o { r } else { r + 1 }
            };
            assert forall|j: int| 0 <= j < after.len() implies #[trigger] after[j] == before[src(j)] && self.state.ticks@[j]
                == ticks[src(j)] by {}
            assert forall|a: int, b: int| 0 <= a < b < after.len() implies #[trigger] after[a].key_of()
                != #[trigger] after[b].key_of() by {
                assert(after[a] == before[src(a)] && after[b] == before[src(b)]);
                if src(a) < src(b) {
                    assert(before[src(a)].key_of() != before[src(b)].key_of());
                } else {
                    assert(before[src(b)].key_of() != before[src(a)].key_of());
                }
            }
            assert forall|j: int| 0 <= j < after.len() implies (#[trigger] after[j]).wf() by {
                assert(after[j] == before[src(j)]);
            }
            assert forall|j: int| 0 <= j < self.state.ticks@.len() implies #[trigger] after[j].projects(
                self.state.ticks@[j],
            ) by {
                assert(after[j] == before[src(j)]);
            }
        }
        true
    }

    /// Move the player at `old_index` to `new_index` and number the
    /// instruments anew; `false`, with nothing changed, when either lies
    /// outside the roster.
    pub fn reorder_player(&mut self, old_index: u8, new_index: u8) -> (r: bool)
        requires
            old(self).wf(),
        ensures
            final(self).wf(),
            final(self).catalog == old(self).catalog,
            final(self).state.score.flows == old(self).state.score.flows,
            r == (old_index < old(self).state.score.players.order@.len() && new_index
                < old(self).state.score.players.order@.len()),
            !r ==> final(self).state == old(self).state,
            r ==> final(self).state.score.players.order@ == old(self).state.score.players.order@.remove(
                old_index as int,
            ).insert(new_index as int, old(self).state.score.players.order@[old_index as int]),
            r ==> counts_current(final(self).state.score),
    {
        let n = self.state.score.players.order.len();
        if old_index as usize >= n || new_index as usize >= n {
            return false;
        }
        let ghost before = self.state.score.players.order@;
        let player = self.state.score.players.order.remove(old_index as usize);
        self.state.score.players.order.insert(new_index as usize, player);
        proof {
            let o = old_index as int;
            let m = new_index as int;
            let after = self.state.score.players.order@;
            let src = |j: int| if j == m { o } else {
                let r = if j < m { j } else { j - 1 };
                if r < o { r } else { r + 1 }
            };
            assert forall|j: int| 0 <= j < after.len() implies #[trigger] after[j] == before[src(j)] by {}
            assert forall|a: int, b: int| 0 <= a < b < after.len() implies #[trigger] after[a].key_of()
                != #[trigger] after[b].key_of() by {
                assert(after[a] == before[src(a)] && after[b] == before[src(b)]);
                if src(a) < src(b) {
                    assert(before[src(a)].key_of() != before[src(b)].key_of());
                } else {
                    assert(before[src(b)].key_of() != before[src(a)].key_of());
                }
            }
        }
        calc_counts(self);
        true
    }

    /// Take player `player_key` out of every flow it takes part in.
    fn detach_player(&mut self, player_key: &str)
        requires
            old(self).wf(),
        ensures
            final(self).wf(),
            final(self).catalog == old(self).catalog,
            final(self).state.ticks == old(self).state.ticks,
            final(self).state.score.players == old(self).state.score.players,
            final(self).state.score.instruments == old(self).state.score.instruments,
            final(self).state.score.flows.order@.len() == old(self).state.score.flows.order@.len(),
            forall|j: int|
                0 <= j < old(self).state.score.flows.order@.len() ==> {
                    let before = old(self).state.score.flows.order@[j];
                    let after = #[trigger] final(self).state.score.flows.order@[j];
                    &&& forall|x: Seq<char>| #[trigger] after.has_player(x) <==> before.has_player(x) && x != player_key@
                    &&& after.key == before.key && after.master == before.master && after.staves == before.staves
                        && after.tracks == before.tracks && after.length == before.length && after.subdivisions == before.subdivisions
                },
    {
        let ghost pre = *self;
        let mut i: usize = 0;
        while i < self.state.score.flows.order.len()
            invariant
                self.wf(),
                i <= self.state.score.flows.order@.len(),
                self.catalog == pre.catalog,
                self.state.ticks == pre.state.ticks,
                self.state.score.players == pre.state.score.players,
                self.state.score.instruments == pre.state.score.instruments,
                self.state.score.flows.order@.len() == pre.state.score.flows.order@.len(),
                forall|j: int|
                    0 <= j < i ==> {
                        let before = pre.state.score.flows.order@[j];
                        let after = #[trigger] self.state.score.flows.order@[j];
                        &&& forall|x: Seq<char>| #[trigger] after.has_player(x) <==> before.has_player(x) && x != player_key@
                        &&& after.key == before.key && after.master == before.master && after.staves == before.staves
                            && after.tracks == before.tracks && after.length == before.length && after.subdivisions == before.subdivisions
                    },
                forall|j: int|
                    i <= j < self.state.score.flows.order@.len() ==> #[trigger] self.state.score.flows.order@[j]
                        == pre.state.score.flows.order@[j],
            decreases self.state.score.flows.order.len() - i,
        {
            let ghost before = self.state.score.flows.order@;
            let flow = &mut self.state.score.flows.order[i];
            flow.remove_player(player_key);
            proof {
                let after = self.state.score.flows.order@;
                assert(after == before.update(i as int, after[i as int]));
                lemma_keyed_update(before, i as int, after[i as int]);
                lemma_projects_frame(before[i as int], after[i as int], self.state.ticks@[i as int]);
                assert forall|j: int| 0 <= j < after.len() implies (#[trigger] after[j]).wf() by {
                    if j != i {
                        assert(after[j] == before[j]);
                    }
                }
                assert forall|j: int| 0 <= j < self.state.ticks@.len() implies #[trigger] after[j].projects(
                    self.state.ticks@[j],
                ) by {
                    if j != i {
                        assert(after[j] == before[j]);
                    }
                }
            }
            i = i + 1;
        }
    }

    /// The stave keys of the instruments of keys `keys`, in order; keys that
    /// name no instrument add none.
    pub fn collect_staves(&self, keys: &Vec<String>) -> (r: Vec<String>)
        requires
            self.wf(),
        ensures
            key_views(r@) == staves_of(key_views(keys@), self.instrument_map()),
    {
        let ghost m = self.instrument_map();
        let ghost ks = key_views(keys@);
        let mut out: Vec<String> = Vec::new();
        let mut q: usize = 0;
        while q < keys.len()
            invariant
                self.wf(),
                m == self.instrument_map(),
                ks == key_views(keys@),
                q <= keys@.len(),
                key_views(out@) == staves_of(ks.take(q as int), m),
            decreases keys.len() - q,
        {
            assert(ks.take(q + 1).drop_last() =~= ks.take(q as int));
            assert(ks[q as int] == keys@[q as int]@);
            let ghost base = key_views(out@);
            match find(&self.state.score.instruments, keys[q].as_str()) {
                Some(i) => {
                    proof {
                        lemma_keyed_index(self.state.score.instruments@, i as int);
                    }
                    let staves = &self.state.score.instruments[i].staves;
                    let mut j: usize = 0;
                    while j < staves.len()
                        invariant
                            j <= staves@.len(),
                            key_views(out@) == base + key_views(staves@).take(j as int),
                        decreases staves.len() - j,
                    {
                        let ghost before = out@;
                        let k = staves[j].clone();
                        out.push(k);
                        proof {
                            crate::track::lemma_key_views_push(before, k);
                            assert(key_views(staves@).take(j + 1) =~= key_views(staves@).take(j as int).push(
                                staves@[j as int]@,
                            ));
                            assert(key_views(out@) =~= base + key_views(staves@).take(j + 1));
                        }
                        j = j + 1;
                    }
                    assert(key_views(staves@).take(staves@.len() as int) =~= key_views(staves@));
                },
                None => {
                    assert(key_views(out@) =~= base + Seq::<Seq<char>>::empty());
                },
            }
            q = q + 1;
        }
        assert(ks.take(ks.len() as int) =~= ks);
        out
    }

    /// Take player `player_key` out of the score: the staves of its
    /// instruments, and the tracks drawn on them, leave every flow it takes
    /// part in; its instruments leave the score; the player leaves every
    /// flow and the roster; then the instruments are numbered anew. `false`,
    /// with nothing changed, when there is no such player, or when a flow it
    /// takes part in lacks one of those staves.
    pub fn remove_player(&mut self, player_key: &str) -> (r: bool)
        requires
            old(self).wf(),
        ensures
            final(self).wf(),
            final(self).catalog == old(self).catalog,
            r == (old(self).player_map().contains_key(player_key@) && old(self).staves_present(
                player_key@,
                staves_of(key_views(old(self).player_map()[player_key@].instruments@), old(self).instrument_map()),
            )),
            !r ==> final(self).state == old(self).state,
            r ==> ({
                let ks = key_views(old(self).player_map()[player_key@].instruments@);
                let staves = staves_of(ks, old(self).instrument_map());
                &&& forall|k: Seq<char>| #[trigger]
                    final(self).player_map().contains_key(k) <==> old(self).player_map().contains_key(k) && k != player_key@
                &&& final(self).state.score.flows.order@.len() == old(self).state.score.flows.order@.len()
                &&& forall|j: int|
                    0 <= j < old(self).state.score.flows.order@.len() ==> {
                        let before = old(self).state.score.flows.order@[j];
                        let after = #[trigger] final(self).state.score.flows.order@[j];
                        &&& before.has_player(player_key@) ==> torn_down(before, after, staves)
                        &&& !before.has_player(player_key@) ==> after.staves == before.staves && after.tracks
                            == before.tracks && after.master == before.master && after.length == before.length
                            && after.key == before.key
                        &&& forall|x: Seq<char>| #[trigger]
                            after.has_player(x) <==> before.has_player(x) && x != player_key@
                    }
                &&& forall|x: Seq<char>| #[trigger]
                    final(self).instrument_map().contains_key(x) <==> old(self).instrument_map().contains_key(x)
                        && !ks.contains(x)
                &&& counts_current(final(self).state.score)
            }),
    {
        let p = match find(&self.state.score.players.order, player_key) {
            Some(p) => p,
            None => return false,
        };
        let ghost pre = *self;
        proof {
            lemma_keyed_index(pre.state.score.players.order@, p as int);
        }
        let keys = copy_keys(&self.state.score.players.order[p].instruments);
        let staves = self.collect_staves(&keys);
        if !self.check_staves_present(player_key, &staves) {
            return false;
        }
        let ghost ks = key_views(keys@);
        self.teardown(player_key, &staves);
        let ghost torn = *self;
        // the instruments leave the score
        let mut q: usize = 0;
        while q < keys.len()
            invariant
                self.wf(),
                self.catalog == pre.catalog,
                self.state.score.flows == torn.state.score.flows,
                self.state.ticks == torn.state.ticks,
                self.state.score.players == torn.state.score.players,
                q <= keys@.len(),
                ks == key_views(keys@),
                forall|x: Seq<char>| #[trigger]
                    self.instrument_map().contains_key(x) <==> pre.instrument_map().contains_key(x) && !ks.take(q as int).contains(x),
            decreases keys.len() - q,
        {
            let ghost before = *self;
            assert(ks.take(q + 1) =~= ks.take(q as int).push(ks[q as int]));
            assert(ks[q as int] == keys@[q as int]@);
            match find(&self.state.score.instruments, keys[q].as_str()) {
                Some(m) => {
                    let ghost insts = self.state.score.instruments@;
                    proof {
                        lemma_keyed_remove(insts, m as int);
                    }
                    self.state.score.instruments.remove(m);
                    proof {
                        assert forall|i: int| 0 <= i < self.state.score.instruments@.len() implies key_views(
                            (#[trigger] self.state.score.instruments@[i]).staves@,
                        ).no_duplicates() by {
                            let pi = if i < m { i } else { i + 1 };
                            assert(self.state.score.instruments@[i] == insts[pi]);
                        }
                    }
                },
                None => {},
            }
            proof {
                assert forall|x: Seq<char>| #[trigger] self.instrument_map().contains_key(x) <==> pre.instrument_map().contains_key(x)
                    && !ks.take(q + 1).contains(x) by {
                    assert(before.instrument_map().contains_key(x) <==> pre.instrument_map().contains_key(x)
                        && !ks.take(q as int).contains(x));
                    vstd::seq_lib::lemma_seq_contains_after_push(ks.take(q as int), ks[q as int], x);
                }
            }
            q = q + 1;
        }
        assert(ks.take(ks.len() as int) =~= ks);
        let ghost gone = *self;
        self.detach_player(player_key);
        let ghost detached = *self;
        let p = match find(&self.state.score.players.order, player_key) {
            Some(p) => p,
            None => {
                proof {
                    assert(gone.state.score.players == pre.state.score.players);
                    assert(false);
                }
                return false;
            },
        };
        let ghost before = self.state.score.players.order@;
        proof {
            lemma_keyed_index(before, p as int);
            lemma_keyed_remove(before, p as int);
        }
        self.state.score.players.order.remove(p);
        let ghost before_counts = *self;
        calc_counts(self);
        proof {
            assert forall|k: Seq<char>| #[trigger] has_key(self.state.score.instruments@, k) == has_key(
                before_counts.state.score.instruments@,
                k,
            ) by {
                if has_key(before_counts.state.score.instruments@, k) {
                    let q2 = choose|q2: int|
                        0 <= q2 < before_counts.state.score.instruments@.len()
                            && #[trigger] before_counts.state.score.instruments@[q2].key_of() == k;
                    assert(self.state.score.instruments@[q2].key_of() == k);
                }
                if has_key(self.state.score.instruments@, k) {
                    let q2 = choose|q2: int|
                        0 <= q2 < self.state.score.instruments@.len() && #[trigger] self.state.score.instruments@[q2].key_of()
                            == k;
                    assert(before_counts.state.score.instruments@[q2].key_of() == k);
                }
            }
            assert forall|x: Seq<char>| #[trigger] self.instrument_map().contains_key(x) <==> pre.instrument_map().contains_key(x)
                && !ks.contains(x) by {
                assert(self.instrument_map().contains_key(x) == before_counts.instrument_map().contains_key(x));
                assert(gone.instrument_map().contains_key(x) <==> pre.instrument_map().contains_key(x) && !ks.contains(x));
            }
            assert forall|k: Seq<char>| #[trigger] self.player_map().contains_key(k) <==> pre.player_map().contains_key(k)
                && k != player_key@ by {
            }
            assert forall|j: int| 0 <= j < pre.state.score.flows.order@.len() implies {
                let b = pre.state.score.flows.order@[j];
                let a = #[trigger] self.state.score.flows.order@[j];
                &&& b.has_player(player_key@) ==> torn_down(b, a, key_views(staves@))
                &&& !b.has_player(player_key@) ==> a.staves == b.staves && a.tracks == b.tracks && a.master == b.master
                    && a.length == b.length && a.key == b.key
                &&& forall|x: Seq<char>| #[trigger] a.has_player(x) <==> b.has_player(x) && x != player_key@
            } by {
                let t = torn.state.score.flows.order@[j];
                let a = self.state.score.flows.order@[j];
                let d = detached.state.score.flows.order@[j];
                let b = pre.state.score.flows.order@[j];
                assert(gone.state.score.flows.order@[j] == t);
                assert(a == d);
                assert(b.has_player(player_key@) ==> torn_down(b, t, key_views(staves@)) && t.players == b.players);
                assert(!b.has_player(player_key@) ==> t == b);
                assert(d.staves == t.staves && d.tracks == t.tracks && d.master == t.master && d.length == t.length && d.key == t.key);
                assert(a.staves == t.staves && a.tracks == t.tracks);
                assert(a.stave_map() == t.stave_map() && a.track_map() == t.track_map());
                if b.has_player(player_key@) {
                    let sk = key_views(staves@);
                    assert forall|k: Seq<char>| #[trigger] a.stave_map().contains_key(k) <==> b.stave_map().contains_key(k) && !sk.contains(k) by {
                        assert(t.stave_map().contains_key(k) <==> b.stave_map().contains_key(k) && !sk.contains(k));
                    }
                    assert forall|k: Seq<char>| #[trigger] a.stave_map().contains_key(k) implies a.stave_map()[k] == b.stave_map()[k] by {
                        assert(t.stave_map().contains_key(k));
                    }
                    assert forall|k: Seq<char>| #[trigger] a.track_map().contains_key(k) <==> b.track_map().contains_key(k) && !b.tracks_of_staves(sk, k) by {
                        assert(t.track_map().contains_key(k) <==> b.track_map().contains_key(k) && !b.tracks_of_staves(sk, k));
                    }
                    assert forall|k: Seq<char>| #[trigger] a.track_map().contains_key(k) implies a.track_map()[k] == b.track_map()[k] by {
                        assert(t.track_map().contains_key(k));
                    }
                    assert(torn_down(b, a, sk));
                }
                assert forall|x: Seq<char>| #[trigger] a.has_player(x) <==> pre.state.score.flows.order@[j].has_player(x) && x != player_key@ by {
                    assert(t.players == pre.state.score.flows.order@[j].players);
                }
            }
        }
        true
    }

    /// Let player `player_key` take part in flow `flow_key` and lay out the
    /// staves of each of its instruments there (an instrument key that names
    /// no instrument is passed over). `false`, with nothing changed, when the
    /// flow or the player is missing.
    pub fn assign_player(&mut self, flow_key: &str, player_key: &str) -> (r: bool)
        requires
            old(self).wf(),
        ensures
            final(self).wf(),
            final(self).catalog == old(self).catalog,
            final(self).state.score.players == old(self).state.score.players,
            final(self).state.score.instruments == old(self).state.score.instruments,
            r == (old(self).flow_map().contains_key(flow_key@) && old(self).player_map().contains_key(player_key@)),
            !r ==> final(self).state == old(self).state,
            r ==> ({
                let before = old(self).flow_map()[flow_key@];
                let after = final(self).flow_map()[flow_key@];
                &&& final(self).flow_map() == old(self).flow_map().insert(flow_key@, after)
                &&& forall|x: Seq<char>| #[trigger] after.has_player(x) <==> before.has_player(x) || x == player_key@
                &&& forall|k: Seq<char>| #[trigger] before.stave_map().contains_key(k) ==> after.stave_map().contains_key(k)
                &&& forall|x: Seq<char>, j: int|
                    #[trigger] key_views(old(self).player_map()[player_key@].instruments@).contains(x)
                        && old(self).instrument_map().contains_key(x) && 0 <= j < staves_laid_out(
                        old(self).catalog@,
                        old(self).instrument_map()[x],
                    ) ==> after.stave_map().contains_key(#[trigger] old(self).instrument_map()[x].staves@[j]@)
                &&& after.master == before.master && after.length == before.length
            }),
    {
        let i = match find(&self.state.score.flows.order, flow_key) {
            Some(i) => i,
            None => return false,
        };
        let p = match find(&self.state.score.players.order, player_key) {
            Some(p) => p,
            None => return false,
        };
        let ghost pre = *self;
        proof {
            lemma_keyed_index(pre.state.score.flows.order@, i as int);
            lemma_keyed_index(pre.state.score.players.order@, p as int);
        }
        let keys = copy_keys(&self.state.score.players.order[p].instruments);
        let ghost ks = key_views(keys@);
        let ghost f0 = self.state.score.flows.order@[i as int];
        {
            let flow = &mut self.state.score.flows.order[i];
            flow.add_player(player_key.to_owned());
        }
        proof {
            let before = pre.state.score.flows.order@;
            let after_seq = self.state.score.flows.order@;
            assert(after_seq == before.update(i as int, after_seq[i as int]));
            lemma_keyed_update(before, i as int, after_seq[i as int]);
            lemma_projects_frame(before[i as int], after_seq[i as int], self.state.ticks@[i as int]);
            assert forall|j: int| 0 <= j < after_seq.len() implies (#[trigger] after_seq[j]).wf() by {
                if j != i {
                    assert(after_seq[j] == before[j]);
                }
            }
            assert forall|j: int| 0 <= j < self.state.ticks@.len() implies #[trigger] after_seq[j].projects(
                self.state.ticks@[j],
            ) by {
                if j != i {
                    assert(after_seq[j] == before[j]);
                }
            }
            assert(ks.take(0) =~= Seq::<Seq<char>>::empty());
        }
        let mut q: usize = 0;
        while q < keys.len()
            invariant
                self.wf(),
                self.catalog == pre.catalog,
                self.state.score.players == pre.state.score.players,
                self.state.score.instruments == pre.state.score.instruments,
                self.state.ticks == pre.state.ticks,
                i < self.state.score.flows.order@.len(),
                self.state.score.flows.order@.len() == pre.state.score.flows.order@.len(),
                self.state.score.flows.order@ == pre.state.score.flows.order@.update(
                    i as int,
                    self.state.score.flows.order@[i as int],
                ),
                q <= keys@.len(),
                ks == key_views(keys@),
                ks == key_views(pre.player_map()[player_key@].instruments@),
                ({
                    let after = self.state.score.flows.order@[i as int];
                    &&& forall|x: Seq<char>| #[trigger] after.has_player(x) <==> f0.has_player(x) || x == player_key@
                    &&& forall|k: Seq<char>| #[trigger] f0.stave_map().contains_key(k) ==> after.stave_map().contains_key(k)
                    &&& forall|x: Seq<char>, j: int|
                        #[trigger] ks.take(q as int).contains(x) && pre.instrument_map().contains_key(x) && 0 <= j
                            < staves_laid_out(pre.catalog@, pre.instrument_map()[x]) ==> after.stave_map().contains_key(
                            #[trigger] pre.instrument_map()[x].staves@[j]@,
                        )
                    &&& after.master == f0.master && after.length == f0.length && after.subdivisions == f0.subdivisions
                    &&& after.key == f0.key
                }),
                f0 == pre.state.score.flows.order@[i as int],
            decreases keys.len() - q,
        {
            let ghost before = self.state.score.flows.order@;
            let ghost fb = before[i as int];
            assert(before == pre.state.score.flows.order@.update(i as int, fb));
            match find(&self.state.score.instruments, keys[q].as_str()) {
                Some(m) => {
                    proof {
                        lemma_keyed_index(self.state.score.instruments@, m as int);
                    }
                    let flow = &mut self.state.score.flows.order[i];
                    flow.add_instrument(&self.state.score.instruments[m], &self.catalog);
                    proof {
                        let inst = self.state.score.instruments@[m as int];
                        let after = self.state.score.flows.order@[i as int];
                        let n = staves_laid_out(pre.catalog@, inst) as int;
                        assert forall|j: int| 0 <= j < n implies after.stave_map().contains_key(#[trigger] inst.staves@[j]@) by {
                            assert(key_views(inst.staves@).take(n).contains(inst.staves@[j]@)) by {
                                assert(key_views(inst.staves@).take(n)[j] == inst.staves@[j]@);
                            }
                        }
                    }
                },
                None => {},
            }
            proof {
                let after_seq = self.state.score.flows.order@;
                let after = after_seq[i as int];
                assert(after_seq == before.update(i as int, after));
                assert(before.len() == pre.state.score.flows.order@.len());
                assert(after_seq.len() == before.len());
                assert(after_seq[i as int] == pre.state.score.flows.order@.update(i as int, after)[i as int]);
                assert forall|j: int| 0 <= j < after_seq.len() implies after_seq[j] == pre.state.score.flows.order@.update(
                    i as int,
                    after,
                )[j] by {
                    if j != i {
                        assert(after_seq[j] == before[j]);
                        assert(before[j] == pre.state.score.flows.order@.update(i as int, fb)[j]);
                    }
                }
                assert(after_seq =~= pre.state.score.flows.order@.update(i as int, after));
                assert(after.players == fb.players);
                assert forall|x: Seq<char>| #[trigger] after.has_player(x) <==> f0.has_player(x) || x == player_key@ by {
                    assert(fb.has_player(x) <==> f0.has_player(x) || x == player_key@);
                }
                assert forall|k: Seq<char>| #[trigger] f0.stave_map().contains_key(k) implies after.stave_map().contains_key(k) by {
                    assert(fb.stave_map().contains_key(k));
                }
                lemma_keyed_update(before, i as int, after);
                lemma_projects_frame(fb, after, self.state.ticks@[i as int]);
                assert(ks.take(q + 1) =~= ks.take(q as int).push(ks[q as int]));
                assert forall|j: int| 0 <= j < after_seq.len() implies (#[trigger] after_seq[j]).wf() by {
                    if j != i {
                        assert(after_seq[j] == before[j]);
                    }
                }
                assert forall|j: int| 0 <= j < self.state.ticks@.len() implies #[trigger] after_seq[j].projects(
                    self.state.ticks@[j],
                ) by {
                    if j != i {
                        assert(after_seq[j] == before[j]);
                    }
                }
                assert forall|x: Seq<char>, j: int|
                    #[trigger] ks.take(q + 1).contains(x) && pre.instrument_map().contains_key(x) && 0 <= j
                        < staves_laid_out(pre.catalog@, pre.instrument_map()[x]) implies after.stave_map().contains_key(
                        #[trigger] pre.instrument_map()[x].staves@[j]@,
                    ) by {
                    if ks.take(q as int).contains(x) {
                        assert(fb.stave_map().contains_key(pre.instrument_map()[x].staves@[j]@));
                    } else {
                        assert(x == ks[q as int]);
                        let m = choose|m: int|
                            0 <= m < pre.state.score.instruments@.len() && #[trigger] pre.state.score.instruments@[m].key_of() == x;
                        lemma_keyed_index(pre.state.score.instruments@, m);
                    }
                }
            }
            q = q + 1;
        }
        proof {
            assert(ks.take(ks.len() as int) =~= ks);
            lemma_keyed_index(self.state.score.flows.order@, i as int);
            lemma_keyed_update(pre.state.score.flows.order@, i as int, self.state.score.flows.order@[i as int]);
        }
        true
    }
    /// Stop player `player_key` from taking part in flow `flow_key`, and
    /// take the staves of its instruments, with the tracks drawn on them,
    /// out of the flow (an instrument key that names no instrument, or a
    /// stave the flow lacks, is passed over). `false`, with nothing changed,
    /// when the flow or the player is missing.
    pub fn unassign_player(&mut self, flow_key: &str, player_key: &str) -> (r: bool)
        requires
            old(self).wf(),
        ensures
            final(self).wf(),
            r == (old(self).flow_map().contains_key(flow_key@) && old(self).player_map().contains_key(player_key@)),
            !r ==> final(self).state == old(self).state,
            final(self).catalog == old(self).catalog,
            final(self).state.score.players == old(self).state.score.players,
            final(self).state.score.instruments == old(self).state.score.instruments,
            r ==> ({
                let before = old(self).flow_map()[flow_key@];
                let after = final(self).flow_map()[flow_key@];
                let staves = staves_of(
                    key_views(old(self).player_map()[player_key@].instruments@),
                    old(self).instrument_map(),
                );
                &&& final(self).flow_map() == old(self).flow_map().insert(flow_key@, after)
                &&& forall|x: Seq<char>| #[trigger] after.has_player(x) <==> before.has_player(x) && x != player_key@
                &&& torn_down(before, after, staves)
            }),
    {
        let i = match find(&self.state.score.flows.order, flow_key) {
            Some(i) => i,
            None => return false,
        };
        let p = match find(&self.state.score.players.order, player_key) {
            Some(p) => p,
            None => return false,
        };
        let ghost pre = *self;
        proof {
            lemma_keyed_index(pre.state.score.flows.order@, i as int);
            lemma_keyed_index(pre.state.score.players.order@, p as int);
        }
        let keys = copy_keys(&self.state.score.players.order[p].instruments);
        let staves = self.collect_staves(&keys);
        let ghost b = pre.state.score.flows.order@[i as int];
        let flow = &mut self.state.score.flows.order[i];
        assert(*flow == b);
        flow.remove_player(player_key);
        let ghost mid = *flow;
        assert(forall|x: Seq<char>| #[trigger] mid.has_player(x) <==> b.has_player(x) && x != player_key@);
        flow.remove_staves(&staves);
        proof {
            let before = pre.state.score.flows.order@;
            let after_seq = self.state.score.flows.order@;
            let a = after_seq[i as int];
            assert(after_seq == before.update(i as int, a));
            lemma_keyed_update(before, i as int, a);
            lemma_keyed_index(after_seq, i as int);
            lemma_projects_frame(b, a, self.state.ticks@[i as int]);
            assert forall|j: int| 0 <= j < after_seq.len() implies (#[trigger] after_seq[j]).wf() by {
                if j != i {
                    assert(after_seq[j] == before[j]);
                }
            }
            assert forall|j: int| 0 <= j < self.state.ticks@.len() implies #[trigger] after_seq[j].projects(
                self.state.ticks@[j],
            ) by {
                if j != i {
                    assert(after_seq[j] == before[j]);
                }
            }
            let sk = key_views(staves@);
            assert(mid.stave_map() == b.stave_map() && mid.track_map() == b.track_map());
            assert forall|t: Seq<char>| #[trigger] mid.tracks_of_staves(sk, t) == b.tracks_of_staves(sk, t) by {}
            assert forall|k: Seq<char>| #[trigger] a.track_map().contains_key(k) <==> b.track_map().contains_key(k)
                && !b.tracks_of_staves(sk, k) by {
                assert(a.track_map().contains_key(k) <==> mid.track_map().contains_key(k) && !mid.tracks_of_staves(sk, k));
            }
            assert(torn_down(b, a, sk));
            assert forall|x: Seq<char>| #[trigger] a.has_player(x) <==> b.has_player(x) && x != player_key@ by {
                assert(a.players == mid.players);
                assert(mid.has_player(x) <==> b.has_player(x) && x != player_key@);
            }
        }
        true
    }

    /// A new flow (see `Flow::new`) in which every player takes part and
    /// every instrument of the score has its staves laid out, added by
    /// `insert_flow`; its key is handed back. `None`, with nothing changed,
    /// when `insert_flow` refuses it.
    pub fn create_flow(&mut self) -> (r: Option<String>)
        requires
            old(self).wf(),
        ensures
            final(self).wf(),
            final(self).catalog == old(self).catalog,
            final(self).state.score.players == old(self).state.score.players,
            final(self).state.score.instruments == old(self).state.score.instruments,
            r is None ==> final(self).state == old(self).state,
            r matches Some(k) ==> ({
                let f = final(self).flow_map()[k@];
                &&& !old(self).flow_map().contains_key(k@)
                &&& final(self).state.score.flows.order@ == old(self).state.score.flows.order@.push(f)
                &&& f.length == 16 && f.subdivisions == 16
                &&& opens_hidden(f.master)
                &&& staves_tracked(f)
                &&& forall|x: Seq<char>| #[trigger] f.has_player(x) <==> old(self).player_map().contains_key(x)
                &&& forall|m: int, j: int|
                    0 <= m < old(self).state.score.instruments@.len() && 0 <= j < staves_laid_out(
                        old(self).catalog@,
                        old(self).state.score.instruments@[m],
                    ) ==> f.stave_map().contains_key(#[trigger] old(self).state.score.instruments@[m].staves@[j]@)
            }),
    {
        let mut flow = Flow::new();
        let ghost f0 = flow;
        let mut p: usize = 0;
        while p < self.state.score.players.order.len()
            invariant
                *self == *old(self),
                self.wf(),
                flow.wf(),
                p <= self.state.score.players.order@.len(),
                flow.key == f0.key && flow.length == 16 && flow.subdivisions == 16 && flow.master == f0.master,
                opens_hidden(f0.master),
                flow.staves@.len() == 0,
                forall|x: Seq<char>| #[trigger]
                    flow.has_player(x) <==> exists|q: int| 0 <= q < p && #[trigger] self.state.score.players.order@[q].key_of() == x,
            decreases self.state.score.players.order.len() - p,
        {
            flow.add_player(self.state.score.players.order[p].key.clone());
            proof {
                assert forall|x: Seq<char>| #[trigger] flow.has_player(x) <==> exists|q: int|
                    0 <= q < p + 1 && #[trigger] self.state.score.players.order@[q].key_of() == x by {
                    if x == self.state.score.players.order@[p as int].key_of() {
                        assert(self.state.score.players.order@[p as int].key_of() == x);
                    }
                }
            }
            p = p + 1;
        }
        assert(flow.stave_map() =~= Map::<Seq<char>, crate::stave::Stave>::empty());
        let mut m: usize = 0;
        while m < self.state.score.instruments.len()
            invariant
                *self == *old(self),
                self.wf(),
                flow.wf(),
                m <= self.state.score.instruments@.len(),
                flow.key == f0.key && flow.length == 16 && flow.subdivisions == 16 && flow.master == f0.master,
                opens_hidden(f0.master),
                staves_tracked(flow),
                forall|x: Seq<char>| #[trigger]
                    flow.has_player(x) <==> exists|q: int|
                        0 <= q < self.state.score.players.order@.len() && #[trigger] self.state.score.players.order@[q].key_of()
                            == x,
                forall|q: int, j: int|
                    0 <= q < m && 0 <= j < staves_laid_out(self.catalog@, self.state.score.instruments@[q])
                        ==> flow.stave_map().contains_key(#[trigger] self.state.score.instruments@[q].staves@[j]@),
            decreases self.state.score.instruments.len() - m,
        {
            let ghost before = flow;
            flow.add_instrument(&self.state.score.instruments[m], &self.catalog);
            proof {
                let inst = self.state.score.instruments@[m as int];
                let n = staves_laid_out(self.catalog@, inst) as int;
                let ks = key_views(inst.staves@).take(n);
                assert forall|k: Seq<char>| #[trigger] flow.stave_map().contains_key(k) implies flow.stave_map()[k].tracks@.len()
                    == 1 && flow.track_map().contains_key(flow.stave_map()[k].tracks@[0]@) by {
                    if ks.contains(k) {
                        let j = choose|j: int| 0 <= j < ks.len() && ks[j] == k;
                        assert(inst.staves@[j]@ == k);
                    } else {
                        assert(before.stave_map().contains_key(k));
                        assert(before.track_map().contains_key(before.stave_map()[k].tracks@[0]@));
                    }
                }
                assert forall|q: int, j: int|
                    0 <= q < m + 1 && 0 <= j < staves_laid_out(self.catalog@, self.state.score.instruments@[q])
                        implies flow.stave_map().contains_key(#[trigger] self.state.score.instruments@[q].staves@[j]@) by {
                    if q < m {
                        assert(before.stave_map().contains_key(self.state.score.instruments@[q].staves@[j]@));
                    } else {
                        assert(key_views(inst.staves@).take(n)[j] == inst.staves@[j]@);
                    }
                }
                assert forall|x: Seq<char>| #[trigger] flow.has_player(x) <==> exists|q: int|
                    0 <= q < self.state.score.players.order@.len() && #[trigger] self.state.score.players.order@[q].key_of() == x by {
                    assert(before.has_player(x) == flow.has_player(x));
                }
            }
            m = m + 1;
        }
        let key = flow.key.clone();
        let ghost f = flow;
        if !self.insert_flow(flow) {
            return None;
        }
        proof {
            lemma_keyed_index(self.state.score.flows.order@, self.state.score.flows.order@.len() - 1);
            assert forall|x: Seq<char>| #[trigger] f.has_player(x) <==> old(self).player_map().contains_key(x) by {
                if old(self).player_map().contains_key(x) {
                    let q = choose|q: int|
                        0 <= q < old(self).state.score.players.order@.len() && #[trigger] old(self).state.score.players.order@[q].key_of() == x;
                }
            }
        }
        Some(key)
    }

    /// Add `flow`, and its tick strip, at the end of the score's flows;
    /// `false`, with nothing changed, when its key is in use.
    pub fn insert_flow(&mut self, flow: Flow) -> (r: bool)
        requires
            old(self).wf(),
            flow.wf(),
        ensures
            final(self).wf(),
            final(self).catalog == old(self).catalog,
            final(self).state.score.players == old(self).state.score.players,
            final(self).state.score.instruments == old(self).state.score.instruments,
            r == !old(self).flow_map().contains_key(flow.key@),
            !r ==> final(self).state == old(self).state,
            r ==> final(self).state.score.flows.order@ == old(self).state.score.flows.order@.push(flow),
            r ==> final(self).flow_map() == old(self).flow_map().insert(flow.key@, flow),
    {
        if find(&self.state.score.flows.order, flow.key.as_str()).is_some() {
            return false;
        }
        let tl = flow.calc_ticks();
        let ghost before = self.state.score.flows.order@;
        proof {
            crate::keyed::lemma_keyed_push(before, flow);
        }
        self.state.score.flows.order.push(flow);
        self.state.ticks.push(tl);
        proof {
            let after = self.state.score.flows.order@;
            assert forall|j: int| 0 <= j < after.len() implies (#[trigger] after[j]).wf() by {
                if j < before.len() {
                    assert(after[j] == before[j]);
                }
            }
            assert forall|j: int| 0 <= j < self.state.ticks@.len() implies #[trigger] after[j].projects(
                self.state.ticks@[j],
            ) by {
                if j < before.len() {
                    assert(after[j] == before[j]);
                }
            }
        }
        true
    }

    /// Move the instrument at `old_index` of player `player_key` to
    /// `new_index` and number the instruments anew; `false`, with nothing
    /// changed, when the player is missing or either index lies outside its
    /// list.
    pub fn reorder_instrument(&mut self, player_key: &str, old_index: u8, new_index: u8) -> (r: bool)
        requires
            old(self).wf(),
        ensures
            final(self).wf(),
            final(self).catalog == old(self).catalog,
            final(self).state.score.flows == old(self).state.score.flows,
            r == (old(self).player_map().contains_key(player_key@) && old_index < old(self).player_map()[player_key@].instruments@.len()
                && new_index < old(self).player_map()[player_key@].instruments@.len()),
            !r ==> final(self).state == old(self).state,
            r ==> ({
                let list = old(self).player_map()[player_key@].instruments@;
                &&& final(self).player_map().contains_key(player_key@)
                &&& final(self).player_map()[player_key@].instruments@ == list.remove(old_index as int).insert(
                    new_index as int,
                    list[old_index as int],
                )
                &&& counts_current(final(self).state.score)
            }),
    {
        let p = match find(&self.state.score.players.order, player_key) {
            Some(p) => p,
            None => return false,
        };
        let ghost pre = *self;
        proof {
            lemma_keyed_index(pre.state.score.players.order@, p as int);
        }
        let n = self.state.score.players.order[p].instruments.len();
        if old_index as usize >= n || new_index as usize >= n {
            return false;
        }
        let player = &mut self.state.score.players.order[p];
        let moved = player.instruments.remove(old_index as usize);
        player.instruments.insert(new_index as usize, moved);
        proof {
            let after = self.state.score.players.order@;
            assert(after == pre.state.score.players.order@.update(p as int, after[p as int]));
            lemma_keyed_update(pre.state.score.players.order@, p as int, after[p as int]);
        }
        calc_counts(self);
        true
    }

    /// Set the score's title.
    pub fn set_title(&mut self, value: String)
        ensures
            final(self).state.score.meta.title == value,
            final(self).state.score.flows == old(self).state.score.flows,
            final(self).state.score.players == old(self).state.score.players,
            final(self).state.score.instruments == old(self).state.score.instruments,
            final(self).state.ticks == old(self).state.ticks,
            final(self).catalog == old(self).catalog,
    {
        self.state.score.meta.title = value;
    }

    /// Set the score's subtitle.
    pub fn set_subtitle(&mut self, value: String)
        ensures
            final(self).state.score.meta.subtitle == value,
            final(self).state.score.flows == old(self).state.score.flows,
            final(self).state.score.players == old(self).state.score.players,
            final(self).state.score.instruments == old(self).state.score.instruments,
            final(self).state.ticks == old(self).state.ticks,
            final(self).catalog == old(self).catalog,
    {
        self.state.score.meta.subtitle = value;
    }

    /// Set the score's composer.
    pub fn set_composer(&mut self, value: String)
        ensures
            final(self).state.score.meta.composer == value,
            final(self).state.score.flows == old(self).state.score.flows,
            final(self).state.score.players == old(self).state.score.players,
            final(self).state.score.instruments == old(self).state.score.instruments,
            final(self).state.ticks == old(self).state.ticks,
            final(self).catalog == old(self).catalog,
    {
        self.state.score.meta.composer = value;
    }

    /// Set the score's arranger.
    pub fn set_arranger(&mut self, value: String)
        ensures
            final(self).state.score.meta.arranger == value,
            final(self).state.score.flows == old(self).state.score.flows,
            final(self).state.score.players == old(self).state.score.players,
            final(self).state.score.instruments == old(self).state.score.instruments,
            final(self).state.ticks == old(self).state.ticks,
            final(self).catalog == old(self).catalog,
    {
        self.state.score.meta.arranger = value;
    }

    /// Set the score's lyricist.
    pub fn set_lyricist(&mut self, value: String)
        ensures
            final(self).state.score.meta.lyricist == value,
            final(self).state.score.flows == old(self).state.score.flows,
            final(self).state.score.players == old(self).state.score.players,
            final(self).state.score.instruments == old(self).state.score.instruments,
            final(self).state.ticks == old(self).state.ticks,
            final(self).catalog == old(self).catalog,
    {
        self.state.score.meta.lyricist = value;
    }

    /// Set the score's copyright line.
    pub fn set_copyright(&mut self, value: String)
        ensures
            final(self).state.score.meta.copyright == value,
            final(self).state.score.flows == old(self).state.score.flows,
            final(self).state.score.players == old(self).state.score.players,
            final(self).state.score.instruments == old(self).state.score.instruments,
            final(self).state.ticks == old(self).state.ticks,
            final(self).catalog == old(self).catalog,
    {
        self.state.score.meta.copyright = value;
    }

    /// Set how ordinals of soloists' instruments are written.
    pub fn set_auto_count_style_solo(&mut self, value: AutoCountStyle)
        ensures
            final(self).state.score.config.auto_count.solo == value,
            final(self).state.score.config.auto_count.section == old(self).state.score.config.auto_count.section,
            final(self).state.score.flows == old(self).state.score.flows,
            final(self).state.score.players == old(self).state.score.players,
            final(self).state.score.instruments == old(self).state.score.instruments,
            final(self).state.ticks == old(self).state.ticks,
            final(self).catalog == old(self).catalog,
    {
        self.state.score.config.auto_count.solo = value;
    }

    /// Set how ordinals of sections' instruments are written.
    pub fn set_auto_count_style_section(&mut self, value: AutoCountStyle)
        ensures
            final(self).state.score.config.auto_count.section == value,
            final(self).state.score.config.auto_count.solo == old(self).state.score.config.auto_count.solo,
            final(self).state.score.flows == old(self).state.score.flows,
            final(self).state.score.players == old(self).state.score.players,
            final(self).state.score.instruments == old(self).state.score.instruments,
            final(self).state.ticks == old(self).state.ticks,
            final(self).catalog == old(self).catalog,
    {
        self.state.score.config.auto_count.section = value;
    }
}

} // verus!
