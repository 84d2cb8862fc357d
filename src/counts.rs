use vstd::prelude::*;

use crate::engine::Engine;
use crate::keyed::{find, has_key, lemma_keyed_index, Keyed};
use crate::score::{Instrument, Player, PlayerType, Score};
use crate::track::{key_views, lemma_key_views_push};

verus! {

broadcast use vstd::seq_lib::group_seq_properties;

/// The long name of each instrument, by key.
pub open spec fn names_of(score: Score) -> Map<Seq<char>, Seq<char>> {
    Map::new(
        |k: Seq<char>| score.instrument_map().contains_key(k),
        |k: Seq<char>| score.instrument_map()[k].long_name@,
    )
}

/// The keys of `ks` that name an instrument of `m`, in order.
pub open spec fn present(ks: Seq<Seq<char>>, m: Map<Seq<char>, Seq<char>>) -> Seq<Seq<char>>
    decreases ks.len(),
{
    if ks.len() == 0 {
        Seq::empty()
    } else {
        let rest = present(ks.drop_last(), m);
        if m.contains_key(ks.last()) {
            rest.push(ks.last())
        } else {
            rest
        }
    }
}

/// The instruments of the players of type `pt`, in roster order and then
/// in each player's order.
pub open spec fn listed(players: Seq<Player>, pt: PlayerType, m: Map<Seq<char>, Seq<char>>) -> Seq<Seq<char>>
    decreases players.len(),
{
    if players.len() == 0 {
        Seq::empty()
    } else {
        let rest = listed(players.drop_last(), pt, m);
        if players.last().player_type == pt {
            rest + present(key_views(players.last().instruments@), m)
        } else {
            rest
        }
    }
}

/// How many of the first `n` instruments of `l` are named `name`.
pub open spec fn count_named(l: Seq<Seq<char>>, m: Map<Seq<char>, Seq<char>>, name: Seq<char>, n: int) -> nat
    decreases n,
{
    if n <= 0 || n > l.len() {
        0
    } else {
        count_named(l, m, name, n - 1) + if m[l[n - 1]] == name {
            1nat
        } else {
            0nat
        }
    }
}

/// The ordinal of instrument `k` among those of its name in the first `n`
/// of `l`, at its last place there.
pub open spec fn ordinal_of(l: Seq<Seq<char>>, m: Map<Seq<char>, Seq<char>>, k: Seq<char>, n: int) -> Option<nat>
    decreases n,
{
    if n <= 0 || n > l.len() {
        None
    } else if l[n - 1] == k {
        Some(count_named(l, m, m[k], n))
    } else {
        ordinal_of(l, m, k, n - 1)
    }
}

/// The number that instrument `k` carries in list `l`: its ordinal among
/// those of its name, when the name is shared; none otherwise.
pub open spec fn numbering(l: Seq<Seq<char>>, m: Map<Seq<char>, Seq<char>>, k: Seq<char>) -> Option<nat> {
    match ordinal_of(l, m, k, l.len() as int) {
        Some(o) => if count_named(l, m, m[k], l.len() as int) > 1 {
            Some(o)
        } else {
            None
        },
        None => None,
    }
}

/// The number instrument `k` carries in `score`: solo and section players
/// are numbered apart, and a number among section players comes before one
/// among soloists.
pub open spec fn expected_count(score: Score, k: Seq<char>) -> Option<nat> {
    let m = names_of(score);
    let section = listed(score.players.order@, PlayerType::Section, m);
    let solo = listed(score.players.order@, PlayerType::Solo, m);
    match numbering(section, m, k) {
        Some(n) => Some(n),
        None => numbering(solo, m, k),
    }
}

/// The numbers depend on the roster and on the instruments' names alone: a
/// score read back from an export, with the same players and the same
/// instruments, numbers its instruments as the exported one did.
pub proof fn lemma_counts_determined(a: Score, b: Score)
    requires
        a.players.order@ == b.players.order@,
        names_of(a) == names_of(b),
    ensures
        forall|k: Seq<char>| #[trigger] expected_count(a, k) == expected_count(b, k),
{
}

/// A stored number, as a natural.
pub open spec fn count_value(c: Option<usize>) -> Option<nat> {
    match c {
        Some(x) => Some(x as nat),
        None => None,
    }
}

/// Every instrument carries the number `expected_count` gives it.
pub open spec fn counts_current(score: Score) -> bool {
    forall|i: int|
        0 <= i < score.instruments@.len() ==> count_value((#[trigger] score.instruments@[i]).count) == expected_count(
            score,
            score.instruments@[i].key@,
        )
}


/// The long name of instrument `key`.
fn name_of<'a>(score: &'a Score, key: &str) -> (r: &'a String)
    requires
        score.wf(),
        names_of(*score).contains_key(key@),
    ensures
        r@ == names_of(*score)[key@],
{
    match find(&score.instruments, key) {
        Some(i) => {
            proof {
                lemma_keyed_index(score.instruments@, i as int);
            }
            &score.instruments[i].long_name
        },
        None => {
            assert(false);
            &score.instruments[0].long_name
        },
    }
}

/// The instruments of the players of type `pt`, in order.
fn collect_listed(score: &Score, pt: PlayerType) -> (r: Vec<String>)
    requires
        score.wf(),
    ensures
        key_views(r@) == listed(score.players.order@, pt, names_of(*score)),
{
    let ghost m = names_of(*score);
    let players = &score.players.order;
    let mut out: Vec<String> = Vec::new();
    let mut p: usize = 0;
    while p < players.len()
        invariant
            score.wf(),
            m == names_of(*score),
            players == &score.players.order,
            p <= players@.len(),
            key_views(out@) == listed(players@.take(p as int), pt, m),
        decreases players.len() - p,
    {
        assert(players@.take(p + 1).drop_last() =~= players@.take(p as int));
        let ghost base = key_views(out@);
        if players[p].player_type == pt {
            let keys = &players[p].instruments;
            let mut q: usize = 0;
            while q < keys.len()
                invariant
                    score.wf(),
                    m == names_of(*score),
                    q <= keys@.len(),
                    key_views(out@) == base + present(key_views(keys@).take(q as int), m),
                decreases keys.len() - q,
            {
                let ghost before = out@;
                assert(key_views(keys@).take(q + 1).drop_last() =~= key_views(keys@).take(q as int));
                if find(&score.instruments, keys[q].as_str()).is_some() {
                    let k = keys[q].clone();
                    out.push(k);
                    proof {
                        lemma_key_views_push(before, k);
                        assert(key_views(out@) =~= base + present(key_views(keys@).take(q + 1), m));
                    }
                } else {
                    assert(key_views(out@) =~= base + present(key_views(keys@).take(q + 1), m));
                }
                q = q + 1;
            }
            assert(key_views(keys@).take(keys@.len() as int) =~= key_views(keys@));
        } else {
        }
        p = p + 1;
        proof {
            assert(key_views(out@) =~= listed(players@.take(p as int), pt, m));
        }
    }
    assert(players@.take(players@.len() as int) =~= players@);
    out
}

/// The number that instrument `key` carries in list `l`.
fn number_in(score: &Score, l: &Vec<String>, key: &str) -> (r: Option<usize>)
    requires
        score.wf(),
        names_of(*score).contains_key(key@),
        forall|j: int| 0 <= j < l@.len() ==> names_of(*score).contains_key(#[trigger] l@[j]@),
    ensures
        count_value(r) == numbering(key_views(l@), names_of(*score), key@),
{
    let ghost m = names_of(*score);
    let ghost lv = key_views(l@);
    let name = name_of(score, key);
    let wanted = key.to_owned();
    let mut same: usize = 0;
    let mut ord: Option<usize> = None;
    let mut j: usize = 0;
    while j < l.len()
        invariant
            score.wf(),
            m == names_of(*score),
            lv == key_views(l@),
            m.contains_key(key@),
            name@ == m[key@],
            wanted@ == key@,
            forall|q: int| 0 <= q < l@.len() ==> m.contains_key(#[trigger] l@[q]@),
            j <= l@.len(),
            same <= j,
            same == count_named(lv, m, m[key@], j as int),
            count_value(ord) == ordinal_of(lv, m, key@, j as int),
        decreases l.len() - j,
    {
        assert(lv[j as int] == l@[j as int]@);
        let nm = name_of(score, l[j].as_str());
        if *nm == *name {
            same = same + 1;
        }
        if l[j] == wanted {
            ord = Some(same);
        }
        j = j + 1;
    }
    match ord {
        Some(o) => if same > 1 {
            Some(o)
        } else {
            None
        },
        None => None,
    }
}

impl Score {
    /// Number the instruments: where several instruments of one name are
    /// held by players of one type, each gets its ordinal, in roster order
    /// and then in each player's order; every other instrument gets none.
    pub fn calc_counts(&mut self)
        requires
            old(self).wf(),
        ensures
            final(self).wf(),
            counts_current(*final(self)),
            final(self).players == old(self).players,
            final(self).flows == old(self).flows,
            final(self).instruments@.len() == old(self).instruments@.len(),
            forall|i: int|
                0 <= i < final(self).instruments@.len() ==> (#[trigger] final(self).instruments@[i]) == (Instrument {
                    count: final(self).instruments@[i].count,
                    ..old(self).instruments@[i]
                }),
    {
        let ghost pre = *self;
        let ghost m = names_of(*self);
        let solo = collect_listed(self, PlayerType::Solo);
        let section = collect_listed(self, PlayerType::Section);
        proof {
            lemma_present_keys(pre.players.order@, PlayerType::Solo, m);
            lemma_present_keys(pre.players.order@, PlayerType::Section, m);
            assert forall|j: int| 0 <= j < solo@.len() implies m.contains_key(#[trigger] solo@[j]@) by {
                assert(key_views(solo@)[j] == solo@[j]@);
            }
            assert forall|j: int| 0 <= j < section@.len() implies m.contains_key(#[trigger] section@[j]@) by {
                assert(key_views(section@)[j] == section@[j]@);
            }
        }
        let mut counts: Vec<Option<usize>> = Vec::new();
        let mut i: usize = 0;
        while i < self.instruments.len()
            invariant
                self.wf(),
                *self == pre,
                m == names_of(*self),
                key_views(solo@) == listed(pre.players.order@, PlayerType::Solo, m),
                key_views(section@) == listed(pre.players.order@, PlayerType::Section, m),
                forall|j: int| 0 <= j < solo@.len() ==> m.contains_key(#[trigger] solo@[j]@),
                forall|j: int| 0 <= j < section@.len() ==> m.contains_key(#[trigger] section@[j]@),
                i <= self.instruments@.len(),
                counts@.len() == i,
                forall|q: int|
                    0 <= q < i ==> count_value(#[trigger] counts@[q]) == expected_count(pre, pre.instruments@[q].key@),
            decreases self.instruments.len() - i,
        {
            proof {
                lemma_keyed_index(self.instruments@, i as int);
            }
            let key = self.instruments[i].key.as_str();
            let c = match number_in(self, &section, key) {
                Some(n) => Some(n),
                None => number_in(self, &solo, key),
            };
            counts.push(c);
            i = i + 1;
        }
        let mut i: usize = 0;
        while i < self.instruments.len()
            invariant
                i <= self.instruments@.len(),
                counts@.len() == self.instruments@.len(),
                self.instruments@.len() == pre.instruments@.len(),
                self.players == pre.players,
                self.flows == pre.flows,
                forall|q: int|
                    0 <= q < self.instruments@.len() ==> (#[trigger] self.instruments@[q]) == (Instrument {
                        count: self.instruments@[q].count,
                        ..pre.instruments@[q]
                    }),
                forall|q: int| 0 <= q < i ==> #[trigger] self.instruments@[q].count == counts@[q],
                forall|q: int|
                    0 <= q < counts@.len() ==> count_value(#[trigger] counts@[q]) == expected_count(pre, pre.instruments@[q].key@),
            decreases self.instruments.len() - i,
        {
            self.instruments[i].count = counts[i];
            i = i + 1;
        }
        proof {
            assert forall|a: int, b: int| 0 <= a < b < self.instruments@.len() implies #[trigger] self.instruments@[a].key_of()
                != #[trigger] self.instruments@[b].key_of() by {
                assert(pre.instruments@[a].key_of() != pre.instruments@[b].key_of());
            }
            assert forall|q: int| 0 <= q < self.instruments@.len() implies key_views(
                (#[trigger] self.instruments@[q]).staves@,
            ).no_duplicates() by {
                assert(key_views(pre.instruments@[q].staves@).no_duplicates());
            }
            assert forall|k: Seq<char>| #[trigger] has_key(self.instruments@, k) == has_key(pre.instruments@, k) by {
                if has_key(pre.instruments@, k) {
                    let q = choose|q: int| 0 <= q < pre.instruments@.len() && #[trigger] pre.instruments@[q].key_of() == k;
                    assert(self.instruments@[q].key_of() == k);
                }
                if has_key(self.instruments@, k) {
                    let q = choose|q: int| 0 <= q < self.instruments@.len() && #[trigger] self.instruments@[q].key_of() == k;
                    assert(pre.instruments@[q].key_of() == k);
                }
            }
            assert forall|k: Seq<char>| #[trigger] names_of(*self).contains_key(k) implies names_of(*self)[k]
                == names_of(pre)[k] by {
                let q = choose|q: int| 0 <= q < self.instruments@.len() && #[trigger] self.instruments@[q].key_of() == k;
                lemma_keyed_index(self.instruments@, q);
                lemma_keyed_index(pre.instruments@, q);
            }
            assert(names_of(*self) =~= names_of(pre));
            assert forall|q: int| 0 <= q < self.instruments@.len() implies count_value(
                (#[trigger] self.instruments@[q]).count,
            ) == expected_count(*self, self.instruments@[q].key@) by {
                assert(self.instruments@[q].count == counts@[q]);
            }
        }
    }
}

/// Every key of a list of instruments names one.
proof fn lemma_present_keys(players: Seq<Player>, pt: PlayerType, m: Map<Seq<char>, Seq<char>>)
    ensures
        forall|j: int|
            0 <= j < listed(players, pt, m).len() ==> m.contains_key(#[trigger] listed(players, pt, m)[j]),
    decreases players.len(),
{
    if players.len() > 0 {
        lemma_present_keys(players.drop_last(), pt, m);
        lemma_present_only(key_views(players.last().instruments@), m);
        let rest = listed(players.drop_last(), pt, m);
        if players.last().player_type == pt {
            let tail = present(key_views(players.last().instruments@), m);
            assert forall|j: int| 0 <= j < (rest + tail).len() implies m.contains_key(#[trigger] (rest + tail)[j]) by {
                if j < rest.len() {
                    assert((rest + tail)[j] == rest[j]);
                } else {
                    assert((rest + tail)[j] == tail[j - rest.len()]);
                }
            }
        }
    }
}

proof fn lemma_present_only(ks: Seq<Seq<char>>, m: Map<Seq<char>, Seq<char>>)
    ensures
        forall|j: int| 0 <= j < present(ks, m).len() ==> m.contains_key(#[trigger] present(ks, m)[j]),
    decreases ks.len(),
{
    if ks.len() > 0 {
        lemma_present_only(ks.drop_last(), m);
        let rest = present(ks.drop_last(), m);
        assert forall|j: int| 0 <= j < present(ks, m).len() implies m.contains_key(#[trigger] present(ks, m)[j]) by {
            if j < rest.len() {
                assert(present(ks, m)[j] == rest[j]);
            }
        }
    }
}

/// Number the engine's instruments (see `Score::calc_counts`).
pub fn calc_counts(engine: &mut Engine)
    requires
        old(engine).wf(),
    ensures
        final(engine).wf(),
        counts_current(final(engine).state.score),
        final(engine).catalog == old(engine).catalog,
        final(engine).state.ticks == old(engine).state.ticks,
        final(engine).state.score.players == old(engine).state.score.players,
        final(engine).state.score.flows == old(engine).state.score.flows,
        final(engine).state.score.instruments@.len() == old(engine).state.score.instruments@.len(),
        forall|i: int|
            0 <= i < final(engine).state.score.instruments@.len() ==> (#[trigger] final(engine).state.score.instruments@[i]) == (Instrument {
                count: final(engine).state.score.instruments@[i].count,
                ..old(engine).state.score.instruments@[i]
            }),
{
    engine.state.score.calc_counts();
}

} // verus!
