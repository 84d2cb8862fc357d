use std::collections::HashMap;
use vstd::prelude::*;

use crate::entries::Entry;
use crate::keyed::Keyed;
use crate::keys::shortid;
use crate::tempo::AbsoluteTempo;
use crate::time_signature::TimeSignature;

verus! {

broadcast use vstd::std_specs::hash::group_hash_axioms, vstd::seq_lib::group_seq_properties;

/// The views of a list of keys.
pub open spec fn key_views(v: Seq<String>) -> Seq<Seq<char>> {
    Seq::new(v.len(), |i: int| v[i]@)
}

pub proof fn lemma_key_views_push(s: Seq<String>, x: String)
    ensures
        key_views(s.push(x)) == key_views(s).push(x@),
{
    assert forall|j: int| 0 <= j < s.len() + 1 implies #[trigger] key_views(s.push(x))[j] == key_views(
        s,
    ).push(x@)[j] by {
        if j < s.len() {
            assert(s.push(x)[j] == s[j]);
        }
    }
    assert(key_views(s.push(x)) =~= key_views(s).push(x@));
}

/// The entries of `m` but a time signature at tick `t`.
pub open spec fn without_meter_at(m: Map<Seq<char>, Entry>, t: u32) -> Map<Seq<char>, Entry> {
    Map::new(
        |k: Seq<char>| m.contains_key(k) && !(m[k] is TimeSignature && m[k].tick_view() == t),
        |k: Seq<char>| m[k],
    )
}

/// The entries of `m` but a tempo marking at tick `t`.
pub open spec fn without_tempo_at(m: Map<Seq<char>, Entry>, t: u32) -> Map<Seq<char>, Entry> {
    Map::new(
        |k: Seq<char>| m.contains_key(k) && !(m[k] is AbsoluteTempo && m[k].tick_view() == t),
        |k: Seq<char>| m[k],
    )
}

/// The entries of `m`, with those of keys `ks` moved `by` ticks later.
pub open spec fn shift_keys(m: Map<Seq<char>, Entry>, ks: Seq<Seq<char>>, by: nat) -> Map<Seq<char>, Entry> {
    Map::new(
        |k: Seq<char>| m.contains_key(k),
        |k: Seq<char>|
            if ks.contains(k) {
                m[k].with_tick((m[k].tick_view() + by) as u32)
            } else {
                m[k]
            },
    )
}

/// The entries of `m`, with every time signature after tick `after` moved
/// `by` ticks later.
pub open spec fn shift_meters(m: Map<Seq<char>, Entry>, after: u32, by: nat) -> Map<Seq<char>, Entry> {
    Map::new(
        |k: Seq<char>| m.contains_key(k),
        |k: Seq<char>|
            if m[k] is TimeSignature && m[k].tick_view() > after {
                m[k].with_tick((m[k].tick_view() + by) as u32)
            } else {
                m[k]
            },
    )
}

/// No key stands twice in `v`.
pub fn keys_distinct(v: &Vec<String>) -> (r: bool)
    ensures
        r == key_views(v@).no_duplicates(),
{
    let mut i: usize = 0;
    while i < v.len()
        invariant
            i <= v@.len(),
            forall|a: int, b: int| 0 <= a < b < v@.len() && a < i ==> v@[a]@ != v@[b]@,
        decreases v.len() - i,
    {
        let mut j: usize = i + 1;
        while j < v.len()
            invariant
                i < j <= v@.len(),
                forall|a: int, b: int| 0 <= a < b < v@.len() && a < i ==> v@[a]@ != v@[b]@,
                forall|b: int| i < b < j ==> v@[i as int]@ != v@[b]@,
            decreases v.len() - j,
        {
            if v[i] == v[j] {
                proof {
                    assert(key_views(v@)[i as int] == key_views(v@)[j as int]);
                }
                return false;
            }
            j = j + 1;
        }
        i = i + 1;
    }
    proof {
        assert forall|a: int, b: int| 0 <= a < key_views(v@).len() && 0 <= b < key_views(v@).len() && a != b implies key_views(
            v@,
        )[a] != key_views(v@)[b] by {
            if a < b {
                assert(v@[a]@ != v@[b]@);
            } else {
                assert(v@[b]@ != v@[a]@);
            }
        }
    }
    true
}

/// A copy of a list of keys.
pub fn copy_keys(v: &Vec<String>) -> (r: Vec<String>)
    ensures
        key_views(r@) == key_views(v@),
{
    let mut out: Vec<String> = Vec::new();
    let mut i: usize = 0;
    while i < v.len()
        invariant
            i <= v@.len(),
            key_views(out@) == key_views(v@).take(i as int),
        decreases v.len() - i,
    {
        let ghost before = out@;
        let k = v[i].clone();
        out.push(k);
        proof {
            lemma_key_views_push(before, k);
            assert(key_views(v@).take(i + 1) =~= key_views(v@).take(i as int).push(v@[i as int]@));
        }
        i = i + 1;
    }
    assert(key_views(v@).take(v@.len() as int) =~= key_views(v@));
    out
}

/// The keys of `v` other than `key`, in order.
pub fn without_key(v: &Vec<String>, key: &str) -> (r: Vec<String>)
    ensures
        forall|x: Seq<char>| #[trigger] key_views(r@).contains(x) <==> key_views(v@).contains(x) && x != key@,
        key_views(v@).no_duplicates() ==> key_views(r@).no_duplicates(),
{
    let wanted = key.to_owned();
    let ghost ks = key_views(v@);
    let mut kept: Vec<String> = Vec::new();
    let mut i: usize = 0;
    while i < v.len()
        invariant
            i <= v@.len(),
            ks == key_views(v@),
            wanted@ == key@,
            ks.no_duplicates() ==> key_views(kept@).no_duplicates(),
            forall|x: Seq<char>| #[trigger]
                key_views(kept@).contains(x) <==> ks.take(i as int).contains(x) && x != key@,
        decreases v.len() - i,
    {
        let ghost kept_seq = kept@;
        if v[i] != wanted {
            let k = v[i].clone();
            kept.push(k);
            proof {
                lemma_key_views_push(kept_seq, k);
                if ks.no_duplicates() {
                    assert(!key_views(kept_seq).contains(ks[i as int])) by {
                        if key_views(kept_seq).contains(ks[i as int]) {
                            let j = choose|j: int| 0 <= j < i && ks[j] == ks[i as int];
                        }
                    }
                }
            }
        }
        assert(ks.take(i + 1) =~= ks.take(i as int).push(ks[i as int]));
        i = i + 1;
    }
    assert(ks.take(ks.len() as int) =~= ks);
    kept
}

/// The two indexes of a track: the keys found at each tick, and the entries
/// in the order they were recorded.
pub struct Entries {
    pub by_tick: HashMap<u32, Vec<String>>,
    pub by_key: Vec<Entry>,
}

/// A tick-addressable store of entries.
pub struct Track {
    pub key: String,
    pub entries: Entries,
}

impl Keyed for Track {
    open spec fn key_of(&self) -> Seq<char> {
        self.key@
    }

    fn key_str(&self) -> (r: &String) {
        &self.key
    }
}

impl Track {
    /// The keys recorded at tick `t`, in the order they arrived.
    pub open spec fn bucket(&self, t: u32) -> Seq<Seq<char>> {
        if self.entries.by_tick@.contains_key(t) {
            key_views(self.entries.by_tick@[t]@)
        } else {
            Seq::empty()
        }
    }

    /// Some recorded entry has key `k`.
    pub open spec fn has_key(&self, k: Seq<char>) -> bool {
        exists|i: int| 0 <= i < self.entries.by_key@.len() && #[trigger] self.entries.by_key@[i].key_view() == k
    }

    /// The entry recorded under key `k`.
    pub open spec fn entry_of(&self, k: Seq<char>) -> Entry {
        let i = choose|i: int| 0 <= i < self.entries.by_key@.len() && #[trigger] self.entries.by_key@[i].key_view() == k;
        self.entries.by_key@[i]
    }

    /// Some recorded entry has key `k` and sits at tick `t`.
    pub open spec fn holds_at(&self, k: Seq<char>, t: u32) -> bool {
        exists|i: int|
            0 <= i < self.entries.by_key@.len() && #[trigger] self.entries.by_key@[i].key_view() == k
                && self.entries.by_key@[i].tick_view() == t
    }

    /// The entries of the track, by key.
    pub open spec fn view(&self) -> Map<Seq<char>, Entry> {
        Map::new(|k: Seq<char>| self.has_key(k), |k: Seq<char>| self.entry_of(k))
    }

    /// The two indexes agree: keys are unique; each entry's key is found in
    /// the bucket of its tick; each key of a bucket names an entry at that
    /// tick; and no bucket repeats a key.
    pub open spec fn wf(&self) -> bool {
        &&& forall|i: int, j: int|
            0 <= i < j < self.entries.by_key@.len() ==> #[trigger] self.entries.by_key@[i].key_view()
                != #[trigger] self.entries.by_key@[j].key_view()
        &&& forall|i: int|
            0 <= i < self.entries.by_key@.len() ==> self.bucket(
                #[trigger] self.entries.by_key@[i].tick_view(),
            ).contains(self.entries.by_key@[i].key_view())
        &&& forall|t: u32, j: int|
            0 <= j < self.bucket(t).len() ==> self.holds_at(#[trigger] self.bucket(t)[j], t)
        &&& forall|t: u32| (#[trigger] self.bucket(t)).no_duplicates()
    }

    proof fn lemma_entry_of(&self, i: int)
        requires
            self.wf(),
            0 <= i < self.entries.by_key@.len(),
        ensures
            self.view().contains_key(self.entries.by_key@[i].key_view()),
            self.view()[self.entries.by_key@[i].key_view()] == self.entries.by_key@[i],
    {
        let k = self.entries.by_key@[i].key_view();
        assert(self.has_key(k));
        let j = choose|j: int| 0 <= j < self.entries.by_key@.len() && #[trigger] self.entries.by_key@[j].key_view() == k;
        if j != i {
            if j < i {
                assert(self.entries.by_key@[j].key_view() != self.entries.by_key@[i].key_view());
            } else {
                assert(self.entries.by_key@[i].key_view() != self.entries.by_key@[j].key_view());
            }
        }
    }

    /// Of a well-formed track: every entry's key stands in exactly one
    /// bucket, the one of the entry's tick, and once there; and every key
    /// of a bucket names an entry at that bucket's tick.
    pub proof fn lemma_index_consistency(&self)
        requires
            self.wf(),
        ensures
            forall|k: Seq<char>, t: u32|
                #[trigger] self.view().contains_key(k) ==> (#[trigger] self.bucket(t).contains(k)
                    <==> self.view()[k].tick_view() == t),
            forall|t: u32, k: Seq<char>|
                #[trigger] self.bucket(t).contains(k) ==> self.view().contains_key(k)
                    && self.view()[k].tick_view() == t,
            forall|t: u32| (#[trigger] self.bucket(t)).no_duplicates(),
    {
        assert forall|t: u32, k: Seq<char>| #[trigger] self.bucket(t).contains(k) implies self.view().contains_key(
            k,
        ) && self.view()[k].tick_view() == t by {
            let j = choose|j: int| 0 <= j < self.bucket(t).len() && self.bucket(t)[j] == k;
            assert(self.holds_at(self.bucket(t)[j], t));
            let i = choose|i: int|
                0 <= i < self.entries.by_key@.len() && #[trigger] self.entries.by_key@[i].key_view() == k
                    && self.entries.by_key@[i].tick_view() == t;
            self.lemma_entry_of(i);
        }
        assert forall|k: Seq<char>, t: u32| #[trigger] self.view().contains_key(k) implies (
        #[trigger] self.bucket(t).contains(k) <==> self.view()[k].tick_view() == t) by {
            let i = choose|i: int| 0 <= i < self.entries.by_key@.len() && #[trigger] self.entries.by_key@[i].key_view() == k;
            self.lemma_entry_of(i);
            if self.bucket(t).contains(k) {
                let j = choose|j: int| 0 <= j < self.bucket(t).len() && self.bucket(t)[j] == k;
                assert(self.holds_at(self.bucket(t)[j], t));
            }
        }
    }

    /// A track with a fresh key and no entries.
    pub fn new() -> (r: Track)
        ensures
            r.wf(),
            r.view() == Map::<Seq<char>, Entry>::empty(),
    {
        let r = Track { key: shortid(), entries: Entries { by_tick: HashMap::new(), by_key: Vec::new() } };
        assert(r.view() =~= Map::<Seq<char>, Entry>::empty());
        r
    }

    /// Where key `key` stands among the entries.
    fn position(&self, key: &String) -> (r: Option<usize>)
        ensures
            match r {
                Some(i) => i < self.entries.by_key@.len() && self.entries.by_key@[i as int].key_view()
                    == key@,
                None => !self.has_key(key@),
            },
    {
        let mut i: usize = 0;
        while i < self.entries.by_key.len()
            invariant
                i <= self.entries.by_key@.len(),
                forall|j: int| 0 <= j < i ==> #[trigger] self.entries.by_key@[j].key_view() != key@,
            decreases self.entries.by_key.len() - i,
        {
            if *self.entries.by_key[i].key_ref() == *key {
                return Some(i);
            }
            i = i + 1;
        }
        None
    }

    /// The keys at tick `t`, as stored.
    fn bucket_keys(&self, t: u32) -> (r: Vec<String>)
        ensures
            key_views(r@) == self.bucket(t),
    {
        match self.entries.by_tick.get(&t) {
            Some(keys) => {
                let mut out: Vec<String> = Vec::new();
                let mut i: usize = 0;
                while i < keys.len()
                    invariant
                        i <= keys@.len(),
                        key_views(out@) == key_views(keys@).take(i as int),
                    decreases keys.len() - i,
                {
                    let ghost before = out@;
                    let k = keys[i].clone();
                    out.push(k);
                    proof {
                        lemma_key_views_push(before, k);
                        assert(key_views(keys@).take(i + 1) =~= key_views(keys@).take(i as int).push(
                            keys@[i as int]@,
                        ));
                    }
                    i = i + 1;
                }
                assert(key_views(keys@).take(keys@.len() as int) =~= key_views(keys@));
                out
            },
            None => {
                let out: Vec<String> = Vec::new();
                assert(key_views(out@) =~= Seq::<Seq<char>>::empty());
                out
            },
        }
    }

    /// Append `key` to the bucket of tick `t`.
    fn push_to_bucket(&mut self, t: u32, key: String)
        ensures
            final(self).entries.by_key@ == old(self).entries.by_key@,
            final(self).key == old(self).key,
            final(self).bucket(t) == old(self).bucket(t).push(key@),
            forall|u: u32| u != t ==> final(self).bucket(u) == old(self).bucket(u),
    {
        let mut keys = match self.entries.by_tick.remove(&t) {
            Some(keys) => keys,
            None => Vec::new(),
        };
        let ghost before = keys@;
        let ghost pushed = key;
        keys.push(key);
        proof {
            lemma_key_views_push(before, pushed);
        }
        self.entries.by_tick.insert(t, keys);
        assert forall|u: u32| u != t implies self.bucket(u) == old(self).bucket(u) by {
            assert(self.entries.by_tick@.contains_key(u) == old(self).entries.by_tick@.contains_key(u));
        }
    }

    /// Take `key` out of the bucket of tick `t`.
    fn remove_from_bucket(&mut self, t: u32, key: &String)
        requires
            old(self).bucket(t).no_duplicates(),
        ensures
            final(self).entries.by_key@ == old(self).entries.by_key@,
            final(self).key == old(self).key,
            final(self).bucket(t).no_duplicates(),
            forall|x: Seq<char>| #[trigger]
                final(self).bucket(t).contains(x) <==> old(self).bucket(t).contains(x) && x != key@,
            forall|u: u32| u != t ==> final(self).bucket(u) == old(self).bucket(u),
    {
        let ghost old_bucket = self.bucket(t);
        let keys = self.bucket_keys(t);
        let mut kept: Vec<String> = Vec::new();
        let mut i: usize = 0;
        while i < keys.len()
            invariant
                i <= keys@.len(),
                key_views(keys@) == old_bucket,
                old_bucket.no_duplicates(),
                key_views(kept@).no_duplicates(),
                forall|x: Seq<char>| #[trigger]
                    key_views(kept@).contains(x) <==> key_views(keys@).take(i as int).contains(x) && x != key@,
            decreases keys.len() - i,
        {
            let ghost kept_before = key_views(kept@);
            let ghost kept_seq = kept@;
            if keys[i] != *key {
                let k = keys[i].clone();
                kept.push(k);
                proof {
                    lemma_key_views_push(kept_seq, k);
                }
                assert(!kept_before.contains(keys@[i as int]@)) by {
                    if kept_before.contains(keys@[i as int]@) {
                        let j = choose|j: int| 0 <= j < i && key_views(keys@)[j] == keys@[i as int]@;
                        assert(key_views(keys@)[i as int] == keys@[i as int]@);
                    }
                }
            }
            assert(key_views(keys@).take(i + 1) =~= key_views(keys@).take(i as int).push(keys@[i as int]@));
            i = i + 1;
        }
        assert(key_views(keys@).take(keys@.len() as int) =~= key_views(keys@));
        self.entries.by_tick.insert(t, kept);
        assert forall|u: u32| u != t implies self.bucket(u) == old(self).bucket(u) by {
            assert(self.entries.by_tick@.contains_key(u) == old(self).entries.by_tick@.contains_key(u));
        }
    }

    /// Record `entry`, which no entry of the track shares a key with.
    fn insert_fresh(&mut self, entry: Entry)
        requires
            old(self).wf(),
            !old(self).has_key(entry.key_view()),
        ensures
            final(self).wf(),
            final(self).key == old(self).key,
            final(self).view() == old(self).view().insert(entry.key_view(), entry),
            final(self).bucket(entry.tick_view()) == old(self).bucket(entry.tick_view()).push(entry.key_view()),
            forall|u: u32| u != entry.tick_view() ==> final(self).bucket(u) == old(self).bucket(u),
    {
        let ghost pre = *self;
        let ghost k = entry.key_view();
        let ghost t = entry.tick_view();
        let key = entry.key();
        let tick = entry.tick();
        proof {
            assert(!pre.bucket(t).contains(k)) by {
                if pre.bucket(t).contains(k) {
                    let j = choose|j: int| 0 <= j < pre.bucket(t).len() && pre.bucket(t)[j] == k;
                    assert(pre.holds_at(pre.bucket(t)[j], t));
                }
            }
        }
        self.push_to_bucket(tick, key);
        self.entries.by_key.push(entry);
        proof {
            let n = pre.entries.by_key@.len() as int;
            let s = self.entries.by_key@;
            assert(s.len() == n + 1);
            assert forall|i: int| 0 <= i < n implies #[trigger] s[i] == pre.entries.by_key@[i] by {}
            assert(s[n] == entry);
            assert forall|i: int, j: int| 0 <= i < j < s.len() implies #[trigger] s[i].key_view()
                != #[trigger] s[j].key_view() by {
                if j == n {
                    assert(pre.entries.by_key@[i].key_view() == s[i].key_view());
                }
            }
            assert forall|i: int| 0 <= i < s.len() implies self.bucket(
                #[trigger] s[i].tick_view(),
            ).contains(s[i].key_view()) by {
                if i < n {
                    assert(pre.bucket(pre.entries.by_key@[i].tick_view()).contains(pre.entries.by_key@[i].key_view()));
                }
            }
            assert forall|u: u32, j: int| 0 <= j < self.bucket(u).len() implies self.holds_at(
                #[trigger] self.bucket(u)[j],
                u,
            ) by {
                let x = self.bucket(u)[j];
                if u == t && j == pre.bucket(u).len() {
                    assert(s[n].key_view() == x && s[n].tick_view() == u);
                } else {
                    assert(pre.bucket(u)[j] == x);
                    assert(pre.holds_at(pre.bucket(u)[j], u));
                    let m = choose|m: int|
                        0 <= m < pre.entries.by_key@.len() && #[trigger] pre.entries.by_key@[m].key_view() == x
                            && pre.entries.by_key@[m].tick_view() == u;
                    assert(s[m] == pre.entries.by_key@[m]);
                }
            }
            assert forall|u: u32| (#[trigger] self.bucket(u)).no_duplicates() by {
                assert(pre.bucket(u).no_duplicates());
                if u == t {
                    assert forall|a: int, b: int| 0 <= a < b < self.bucket(u).len() implies self.bucket(u)[a]
                        != self.bucket(u)[b] by {
                        if b == pre.bucket(u).len() {
                            assert(pre.bucket(u)[a] == self.bucket(u)[a]);
                        }
                    }
                }
            }
            assert(self.wf());
            assert forall|x: Seq<char>| #[trigger] self.view().contains_key(x) == pre.view().insert(k, entry).contains_key(x) by {
                if pre.has_key(x) {
                    let m = choose|m: int| 0 <= m < pre.entries.by_key@.len() && #[trigger] pre.entries.by_key@[m].key_view() == x;
                    assert(s[m].key_view() == x);
                }
                if self.has_key(x) && x != k {
                    let m = choose|m: int| 0 <= m < s.len() && #[trigger] s[m].key_view() == x;
                    assert(pre.entries.by_key@[m].key_view() == x);
                }
                assert(s[n].key_view() == k);
            }
            assert forall|x: Seq<char>| #[trigger] self.view().contains_key(x) implies self.view()[x]
                == pre.view().insert(k, entry)[x] by {
                if x == k {
                    self.lemma_entry_of(n);
                } else {
                    let m = choose|m: int| 0 <= m < s.len() && #[trigger] s[m].key_view() == x;
                    self.lemma_entry_of(m);
                    pre.lemma_entry_of(m);
                }
            }
            assert(self.view() =~= pre.view().insert(k, entry));
        }
    }

    /// Record `entry` under its key and at its tick: its key goes to the end
    /// of its tick's bucket. An entry that held the key before is replaced,
    /// and its key leaves the bucket it stood in.
    pub fn insert(&mut self, entry: Entry)
        requires
            old(self).wf(),
        ensures
            final(self).wf(),
            final(self).key == old(self).key,
            final(self).view() == old(self).view().insert(entry.key_view(), entry),
            final(self).bucket(entry.tick_view()).last() == entry.key_view(),
            !old(self).view().contains_key(entry.key_view()) ==> {
                &&& final(self).bucket(entry.tick_view()) == old(self).bucket(entry.tick_view()).push(entry.key_view())
                &&& forall|u: u32| u != entry.tick_view() ==> final(self).bucket(u) == old(self).bucket(u)
            },
            old(self).view().contains_key(entry.key_view()) ==> forall|u: u32|
                u != entry.tick_view() && u != old(self).view()[entry.key_view()].tick_view() ==> final(self).bucket(u)
                    == old(self).bucket(u),
    {
        let key = entry.key();
        let removed = self.remove(key.as_str());
        proof {
            assert(!self.has_key(entry.key_view())) by {
                if self.has_key(entry.key_view()) {
                    let m = choose|m: int|
                        0 <= m < self.entries.by_key@.len() && #[trigger] self.entries.by_key@[m].key_view()
                            == entry.key_view();
                    self.lemma_entry_of(m);
                }
            }
        }
        self.insert_fresh(entry);
        proof {
            assert(self.view() =~= old(self).view().insert(entry.key_view(), entry));
        }
    }

    /// Take the entry of key `key` out of the track and hand it back; `None`
    /// when no entry has that key.
    pub fn remove(&mut self, key: &str) -> (r: Option<Entry>)
        requires
            old(self).wf(),
        ensures
            final(self).wf(),
            final(self).key == old(self).key,
            final(self).view() == old(self).view().remove(key@),
            r == (if old(self).view().contains_key(key@) {
                Some(old(self).view()[key@])
            } else {
                None
            }),
            !old(self).view().contains_key(key@) ==> *final(self) == *old(self),
            old(self).view().contains_key(key@) ==> ({
                let t = old(self).view()[key@].tick_view();
                &&& final(self).bucket(t).no_duplicates()
                &&& forall|x: Seq<char>| #[trigger]
                    final(self).bucket(t).contains(x) <==> old(self).bucket(t).contains(x) && x != key@
                &&& forall|u: u32| u != t ==> final(self).bucket(u) == old(self).bucket(u)
            }),
    {
        let ghost pre = *self;
        let key = key.to_owned();
        match self.position(&key) {
            None => {
                assert(self.view() =~= pre.view().remove(key@));
                None
            },
            Some(i) => {
                let tick = self.entries.by_key[i].tick();
                proof {
                    pre.lemma_entry_of(i as int);
                }
                self.remove_from_bucket(tick, &key);
                let e = self.entries.by_key.remove(i);
                proof {
                    let n = pre.entries.by_key@.len() as int;
                    let ii = i as int;
                    let s = self.entries.by_key@;
                    let ps = pre.entries.by_key@;
                    let k = key@;
                    assert(s.len() == n - 1);
                    assert forall|j: int| 0 <= j < n - 1 implies #[trigger] s[j] == ps[if j < ii { j } else { j + 1 }] by {}
                    assert forall|a: int, b: int| 0 <= a < b < s.len() implies #[trigger] s[a].key_view()
                        != #[trigger] s[b].key_view() by {
                        let pa = if a < ii { a } else { a + 1 };
                        let pb = if b < ii { b } else { b + 1 };
                        assert(s[a] == ps[pa] && s[b] == ps[pb]);
                        assert(ps[pa].key_view() != ps[pb].key_view());
                    }
                    assert forall|j: int| 0 <= j < s.len() implies self.bucket(
                        #[trigger] s[j].tick_view(),
                    ).contains(s[j].key_view()) by {
                        let pj = if j < ii { j } else { j + 1 };
                        assert(s[j] == ps[pj]);
                        assert(ps[pj].key_view() != ps[ii].key_view());
                        assert(pre.bucket(ps[pj].tick_view()).contains(ps[pj].key_view()));
                    }
                    assert forall|u: u32, j: int| 0 <= j < self.bucket(u).len() implies self.holds_at(
                        #[trigger] self.bucket(u)[j],
                        u,
                    ) by {
                        let x = self.bucket(u)[j];
                        assert(self.bucket(u).contains(x));
                        assert(pre.bucket(u).contains(x));
                        assert(u == tick ==> x != k);
                        let pj = choose|pj: int| 0 <= pj < pre.bucket(u).len() && pre.bucket(u)[pj] == x;
                        assert(pre.holds_at(pre.bucket(u)[pj], u));
                        let m = choose|m: int|
                            0 <= m < ps.len() && #[trigger] ps[m].key_view() == x && ps[m].tick_view() == u;
                        assert(m != ii);
                        let nm = if m < ii { m } else { m - 1 };
                        assert(s[nm] == ps[m]);
                    }
                    assert(self.wf());
                    assert forall|x: Seq<char>| #[trigger] self.view().contains_key(x) == pre.view().remove(k).contains_key(x) by {
                        if pre.has_key(x) && x != k {
                            let m = choose|m: int| 0 <= m < ps.len() && #[trigger] ps[m].key_view() == x;
                            assert(m != ii);
                            let nm = if m < ii { m } else { m - 1 };
                            assert(s[nm] == ps[m]);
                        }
                        if self.has_key(x) {
                            let m = choose|m: int| 0 <= m < s.len() && #[trigger] s[m].key_view() == x;
                            let pm = if m < ii { m } else { m + 1 };
                            assert(s[m] == ps[pm]);
                            assert(ps[pm].key_view() != ps[ii].key_view());
                        }
                    }
                    assert forall|x: Seq<char>| #[trigger] self.view().contains_key(x) implies self.view()[x]
                        == pre.view().remove(k)[x] by {
                        let m = choose|m: int| 0 <= m < s.len() && #[trigger] s[m].key_view() == x;
                        let pm = if m < ii { m } else { m + 1 };
                        assert(s[m] == ps[pm]);
                        self.lemma_entry_of(m);
                        pre.lemma_entry_of(pm);
                    }
                    assert(self.view() =~= pre.view().remove(k));
                }
                Some(e)
            },
        }
    }

    /// Move the entry of key `key` to tick `new_tick`. Nothing happens when
    /// no entry has that key or the entry is already there.
    pub fn move_entry(&mut self, key: &str, new_tick: u32)
        requires
            old(self).wf(),
        ensures
            final(self).wf(),
            final(self).key == old(self).key,
            final(self).view() == (if old(self).view().contains_key(key@) {
                old(self).view().insert(key@, old(self).view()[key@].with_tick(new_tick))
            } else {
                old(self).view()
            }),
            !old(self).view().contains_key(key@) || old(self).view()[key@].tick_view() == new_tick ==> *final(self)
                == *old(self),
            old(self).view().contains_key(key@) && old(self).view()[key@].tick_view() != new_tick ==> ({
                let t = old(self).view()[key@].tick_view();
                &&& final(self).bucket(new_tick) == old(self).bucket(new_tick).push(key@)
                &&& final(self).bucket(t).no_duplicates()
                &&& forall|x: Seq<char>| #[trigger]
                    final(self).bucket(t).contains(x) <==> old(self).bucket(t).contains(x) && x != key@
                &&& forall|u: u32| u != t && u != new_tick ==> final(self).bucket(u) == old(self).bucket(u)
            }),
    {
        let ghost pre = *self;
        let key = key.to_owned();
        match self.position(&key) {
            None => {
                assert(self.view() =~= pre.view());
            },
            Some(i) => {
                let old_tick = self.entries.by_key[i].tick();
                proof {
                    pre.lemma_entry_of(i as int);
                    pre.entries.by_key@[i as int].lemma_with_tick(new_tick);
                    pre.entries.by_key@[i as int].lemma_with_tick(old_tick);
                }
                if old_tick != new_tick {
                    let mut e = self.entries.by_key.remove(i);
                    e.set_tick(new_tick);
                    self.entries.by_key.insert(i, e);
                    self.remove_from_bucket(old_tick, &key);
                    let ghost moved_key = key;
                    self.push_to_bucket(new_tick, key);
                    proof {
                        let ii = i as int;
                        let s = self.entries.by_key@;
                        let ps = pre.entries.by_key@;
                        let k = moved_key@;
                        assert(s == ps.update(ii, ps[ii].with_tick(new_tick)));
                        assert forall|j: int| 0 <= j < s.len() && j != ii implies #[trigger] s[j] == ps[j] by {}
                        assert(s[ii].key_view() == k && s[ii].tick_view() == new_tick);
                        assert forall|a: int, b: int| 0 <= a < b < s.len() implies #[trigger] s[a].key_view()
                            != #[trigger] s[b].key_view() by {
                            assert(s[a].key_view() == ps[a].key_view());
                            assert(s[b].key_view() == ps[b].key_view());
                        }
                        assert forall|j: int| 0 <= j < s.len() implies self.bucket(
                            #[trigger] s[j].tick_view(),
                        ).contains(s[j].key_view()) by {
                            if j != ii {
                                assert(s[j] == ps[j]);
                                assert(ps[j].key_view() != ps[ii].key_view());
                                assert(pre.bucket(ps[j].tick_view()).contains(ps[j].key_view()));
                            }
                        }
                        assert forall|u: u32, j: int| 0 <= j < self.bucket(u).len() implies self.holds_at(
                            #[trigger] self.bucket(u)[j],
                            u,
                        ) by {
                            let x = self.bucket(u)[j];
                            assert(self.bucket(u).contains(x));
                            if x == k && u == new_tick {
                                assert(s[ii].key_view() == x && s[ii].tick_view() == u);
                            } else {
                                assert(pre.bucket(u).contains(x)) by {
                                    if u == new_tick {
                                        let q = choose|q: int| 0 <= q < self.bucket(u).len() && self.bucket(u)[q] == x;
                                        assert(q < pre.bucket(u).len());
                                        assert(pre.bucket(u)[q] == x);
                                    }
                                }
                                let pj = choose|pj: int| 0 <= pj < pre.bucket(u).len() && pre.bucket(u)[pj] == x;
                                assert(pre.holds_at(pre.bucket(u)[pj], u));
                                let m = choose|m: int|
                                    0 <= m < ps.len() && #[trigger] ps[m].key_view() == x && ps[m].tick_view() == u;
                                assert(m != ii);
                                assert(s[m] == ps[m]);
                            }
                        }
                        assert forall|u: u32| (#[trigger] self.bucket(u)).no_duplicates() by {
                            if u == new_tick {
                                assert(pre.bucket(u).no_duplicates());
                                assert(!pre.bucket(u).contains(k)) by {
                                    if pre.bucket(u).contains(k) {
                                        let pj = choose|pj: int| 0 <= pj < pre.bucket(u).len() && pre.bucket(u)[pj] == k;
                                        assert(pre.holds_at(pre.bucket(u)[pj], u));
                                        let m = choose|m: int|
                                            0 <= m < ps.len() && #[trigger] ps[m].key_view() == k && ps[m].tick_view() == u;
                                        assert(m == ii) by {
                                            if m != ii {
                                                assert(ps[m].key_view() != ps[ii].key_view());
                                            }
                                        }
                                    }
                                }
                                assert forall|a: int, b: int| 0 <= a < b < self.bucket(u).len() implies self.bucket(u)[a]
                                    != self.bucket(u)[b] by {
                                    if b == pre.bucket(u).len() {
                                        assert(pre.bucket(u)[a] == self.bucket(u)[a]);
                                    }
                                }
                            } else if u != old_tick {
                                assert(pre.bucket(u).no_duplicates());
                            }
                        }
                        assert(self.wf());
                        let target = pre.view().insert(k, pre.view()[k].with_tick(new_tick));
                        assert forall|x: Seq<char>| #[trigger] self.view().contains_key(x) == target.contains_key(x) by {
                            if pre.has_key(x) {
                                let m = choose|m: int| 0 <= m < ps.len() && #[trigger] ps[m].key_view() == x;
                                assert(s[m].key_view() == x);
                            }
                            if self.has_key(x) {
                                let m = choose|m: int| 0 <= m < s.len() && #[trigger] s[m].key_view() == x;
                                assert(ps[m].key_view() == x);
                            }
                        }
                        assert forall|x: Seq<char>| #[trigger] self.view().contains_key(x) implies self.view()[x]
                            == target[x] by {
                            let m = choose|m: int| 0 <= m < s.len() && #[trigger] s[m].key_view() == x;
                            self.lemma_entry_of(m);
                            pre.lemma_entry_of(m);
                        }
                        assert(self.view() =~= target);
                    }
                } else {
                    proof {
                        assert(self.view() =~= pre.view().insert(key@, pre.view()[key@].with_tick(new_tick)));
                    }
                }
            },
        }
    }

    /// The first time signature among the entries of keys `b`.
    pub open spec fn time_signature_in(&self, b: Seq<Seq<char>>) -> Option<TimeSignature>
        decreases b.len(),
    {
        if b.len() == 0 {
            None
        } else {
            match self.view()[b[0]] {
                Entry::TimeSignature(ts) => Some(ts),
                _ => self.time_signature_in(b.skip(1)),
            }
        }
    }

    /// The first tempo marking among the entries of keys `b`.
    pub open spec fn tempo_in(&self, b: Seq<Seq<char>>) -> Option<AbsoluteTempo>
        decreases b.len(),
    {
        if b.len() == 0 {
            None
        } else {
            match self.view()[b[0]] {
                Entry::AbsoluteTempo(tempo) => Some(tempo),
                _ => self.tempo_in(b.skip(1)),
            }
        }
    }

    /// The time signature at tick `t`: the first one in its bucket.
    pub open spec fn time_signature_at(&self, t: u32) -> Option<TimeSignature> {
        self.time_signature_in(self.bucket(t))
    }

    /// The tempo marking at tick `t`: the first one in its bucket.
    pub open spec fn tempo_at(&self, t: u32) -> Option<AbsoluteTempo> {
        self.tempo_in(self.bucket(t))
    }

    /// The time signature at the first tick from `from` up to (not
    /// including) `end` that holds one.
    pub open spec fn time_signature_from(&self, from: int, end: int) -> Option<TimeSignature>
        decreases end - from,
    {
        if from >= end || from < 0 || from > u32::MAX {
            None
        } else if self.time_signature_at(from as u32) is Some {
            self.time_signature_at(from as u32)
        } else {
            self.time_signature_from(from + 1, end)
        }
    }

    /// The time signature at the last tick at or before `to` that holds one.
    pub open spec fn time_signature_to(&self, to: int) -> Option<TimeSignature>
        decreases to + 1,
    {
        if to < 0 || to > u32::MAX {
            None
        } else if self.time_signature_at(to as u32) is Some {
            self.time_signature_at(to as u32)
        } else {
            self.time_signature_to(to - 1)
        }
    }

    /// The time signature at tick `tick`, if any: the first entry of that
    /// variant in the tick's bucket.
    pub fn get_time_signature_at_tick(&self, tick: u32) -> (r: Option<&TimeSignature>)
        requires
            self.wf(),
        ensures
            match r {
                Some(ts) => self.time_signature_at(tick) == Some(*ts),
                None => self.time_signature_at(tick) is None,
            },
    {
        let keys = match self.entries.by_tick.get(&tick) {
            Some(keys) => keys,
            None => return None,
        };
        let ghost b = self.bucket(tick);
        let mut i: usize = 0;
        while i < keys.len()
            invariant
                self.wf(),
                i <= keys@.len(),
                b == key_views(keys@),
                b == self.bucket(tick),
                self.time_signature_in(b.skip(i as int)) == self.time_signature_in(b),
            decreases keys.len() - i,
        {
            assert(self.holds_at(b[i as int], tick));
            match self.position(&keys[i]) {
                Some(p) => {
                    proof {
                        self.lemma_entry_of(p as int);
                        assert(b.skip(i as int)[0] == keys@[i as int]@);
                    }
                    match &self.entries.by_key[p] {
                        Entry::TimeSignature(ts) => return Some(ts),
                        _ => {},
                    }
                },
                None => {},
            }
            assert(b.skip(i as int).skip(1) =~= b.skip(i + 1));
            i = i + 1;
        }
        None
    }

    /// The tempo marking at tick `tick`, if any: the first entry of that
    /// variant in the tick's bucket.
    pub fn get_absolute_tempo_at_tick(&self, tick: u32) -> (r: Option<&AbsoluteTempo>)
        requires
            self.wf(),
        ensures
            match r {
                Some(tempo) => self.tempo_at(tick) == Some(*tempo),
                None => self.tempo_at(tick) is None,
            },
    {
        let keys = match self.entries.by_tick.get(&tick) {
            Some(keys) => keys,
            None => return None,
        };
        let ghost b = self.bucket(tick);
        let mut i: usize = 0;
        while i < keys.len()
            invariant
                self.wf(),
                i <= keys@.len(),
                b == key_views(keys@),
                b == self.bucket(tick),
                self.tempo_in(b.skip(i as int)) == self.tempo_in(b),
            decreases keys.len() - i,
        {
            assert(self.holds_at(b[i as int], tick));
            match self.position(&keys[i]) {
                Some(p) => {
                    proof {
                        self.lemma_entry_of(p as int);
                        assert(b.skip(i as int)[0] == keys@[i as int]@);
                    }
                    match &self.entries.by_key[p] {
                        Entry::AbsoluteTempo(tempo) => return Some(tempo),
                        _ => {},
                    }
                },
                None => {},
            }
            assert(b.skip(i as int).skip(1) =~= b.skip(i + 1));
            i = i + 1;
        }
        None
    }

    /// The time signature at the first tick after `tick` and before `length`
    /// that holds one.
    pub fn get_time_signature_after_tick(&self, tick: u32, length: u32) -> (r: Option<&TimeSignature>)
        requires
            self.wf(),
        ensures
            match r {
                Some(ts) => self.time_signature_from(tick + 1, length as int) == Some(*ts),
                None => self.time_signature_from(tick + 1, length as int) is None,
            },
    {
        let mut i: u64 = tick as u64 + 1;
        while i < length as u64
            invariant
                self.wf(),
                tick + 1 <= i,
                self.time_signature_from(i as int, length as int) == self.time_signature_from(
                    tick + 1,
                    length as int,
                ),
            decreases length - i,
        {
            match self.get_time_signature_at_tick(i as u32) {
                Some(ts) => return Some(ts),
                None => {},
            }
            i = i + 1;
        }
        None
    }

    /// The time signature at the last tick at or before `tick` that holds one.
    pub fn get_time_signature_on_or_before_tick(&self, tick: u32) -> (r: Option<&TimeSignature>)
        requires
            self.wf(),
        ensures
            match r {
                Some(ts) => self.time_signature_to(tick as int) == Some(*ts),
                None => self.time_signature_to(tick as int) is None,
            },
    {
        let mut i: u32 = tick;
        loop
            invariant
                self.wf(),
                i <= tick,
                self.time_signature_to(i as int) == self.time_signature_to(tick as int),
            decreases i,
        {
            match self.get_time_signature_at_tick(i) {
                Some(ts) => return Some(ts),
                None => {},
            }
            if i == 0 {
                assert(self.time_signature_to(-1) is None);
                return None;
            }
            i = i - 1;
        }
    }

    proof fn lemma_time_signature_in_tick(&self, b: Seq<Seq<char>>, t: u32)
        requires
            forall|x: Seq<char>| #[trigger] b.contains(x) ==> self.view().contains_key(x) && self.view()[x].tick_view() == t,
        ensures
            self.time_signature_in(b) matches Some(ts) ==> ts.tick == t,
        decreases b.len(),
    {
        if b.len() > 0 {
            assert(b.contains(b[0]));
            assert forall|x: Seq<char>| #[trigger] b.skip(1).contains(x) implies b.contains(x) by {
                let j = choose|j: int| 0 <= j < b.skip(1).len() && b.skip(1)[j] == x;
                assert(b[j + 1] == x);
            }
            self.lemma_time_signature_in_tick(b.skip(1), t);
        }
    }

    /// A time signature found at a tick stands at that tick.
    pub proof fn lemma_time_signature_at_tick(&self, t: u32)
        requires
            self.wf(),
        ensures
            self.time_signature_at(t) matches Some(ts) ==> ts.tick == t,
    {
        self.lemma_index_consistency();
        self.lemma_time_signature_in_tick(self.bucket(t), t);
    }

    /// With a time signature at tick 0, one is in force at every tick, and
    /// it stands at or before that tick.
    pub proof fn lemma_time_signature_to(&self, to: int)
        requires
            self.wf(),
            self.time_signature_at(0) is Some,
            0 <= to <= u32::MAX,
        ensures
            self.time_signature_to(to) matches Some(ts) && ts.tick <= to,
        decreases to,
    {
        self.lemma_time_signature_at_tick(to as u32);
        if self.time_signature_at(to as u32) is None {
            self.lemma_time_signature_to(to - 1);
        }
    }

    /// Some entry of the track is a time signature at tick `t`.
    pub open spec fn has_time_signature_at(&self, t: u32) -> bool {
        exists|k: Seq<char>|
            #[trigger] self.view().contains_key(k) && self.view()[k] is TimeSignature && self.view()[k].tick_view() == t
    }

    /// No two time signatures share a tick, nor two tempo markings.
    pub open spec fn singletons_per_tick(&self) -> bool {
        &&& forall|a: Seq<char>, b: Seq<char>|
            #[trigger] self.view().contains_key(a) && #[trigger] self.view().contains_key(b)
                && self.view()[a] is TimeSignature && self.view()[b] is TimeSignature
                && self.view()[a].tick_view() == self.view()[b].tick_view() ==> a == b
        &&& forall|a: Seq<char>, b: Seq<char>|
            #[trigger] self.view().contains_key(a) && #[trigger] self.view().contains_key(b)
                && self.view()[a] is AbsoluteTempo && self.view()[b] is AbsoluteTempo
                && self.view()[a].tick_view() == self.view()[b].tick_view() ==> a == b
    }

    proof fn lemma_time_signature_in_found(&self, b: Seq<Seq<char>>)
        ensures
            self.time_signature_in(b) matches Some(ts) ==> exists|j: int|
                0 <= j < b.len() && self.view()[#[trigger] b[j]] == Entry::TimeSignature(ts),
            (exists|j: int| 0 <= j < b.len() && self.view()[#[trigger] b[j]] is TimeSignature)
                ==> self.time_signature_in(b) is Some,
        decreases b.len(),
    {
        if b.len() > 0 {
            self.lemma_time_signature_in_found(b.skip(1));
            if self.time_signature_in(b) is Some && !(self.view()[b[0]] is TimeSignature) {
                let ts = self.time_signature_in(b)->Some_0;
                let j = choose|j: int| 0 <= j < b.skip(1).len() && self.view()[#[trigger] b.skip(1)[j]] == Entry::TimeSignature(ts);
                assert(b[j + 1] == b.skip(1)[j]);
            }
            if exists|j: int| 0 <= j < b.len() && self.view()[#[trigger] b[j]] is TimeSignature {
                let j = choose|j: int| 0 <= j < b.len() && self.view()[#[trigger] b[j]] is TimeSignature;
                if j > 0 {
                    assert(b.skip(1)[j - 1] == b[j]);
                }
            }
        }
    }

    /// In a well-formed track with at most one time signature a tick, the
    /// time signature at a tick is the one entry of that kind there.
    pub proof fn lemma_time_signature_at_is(&self, k: Seq<char>)
        requires
            self.wf(),
            self.singletons_per_tick(),
            self.view().contains_key(k),
            self.view()[k] is TimeSignature,
        ensures
            self.time_signature_at(self.view()[k].tick_view()) == Some(self.view()[k]->TimeSignature_0),
    {
        let t = self.view()[k].tick_view();
        let b = self.bucket(t);
        self.lemma_index_consistency();
        assert(b.contains(k));
        let jk = choose|j: int| 0 <= j < b.len() && b[j] == k;
        assert(self.view()[b[jk]] is TimeSignature);
        self.lemma_time_signature_in_found(b);
        let ts = self.time_signature_in(b)->Some_0;
        let j = choose|j: int| 0 <= j < b.len() && self.view()[#[trigger] b[j]] == Entry::TimeSignature(ts);
        assert(b.contains(b[j]));
        assert(self.view().contains_key(b[j]) && self.view()[b[j]].tick_view() == t);
    }

    /// A track that holds a time signature at `t` finds one there.
    pub proof fn lemma_time_signature_at_some(&self, t: u32)
        requires
            self.wf(),
            self.has_time_signature_at(t),
        ensures
            self.time_signature_at(t) is Some,
    {
        let k = choose|k: Seq<char>|
            #[trigger] self.view().contains_key(k) && self.view()[k] is TimeSignature && self.view()[k].tick_view() == t;
        self.lemma_index_consistency();
        let b = self.bucket(t);
        assert(b.contains(k));
        let jk = choose|j: int| 0 <= j < b.len() && b[j] == k;
        assert(self.view()[b[jk]] is TimeSignature);
        self.lemma_time_signature_in_found(b);
    }

    /// Some entry of the track has key `key`.
    pub fn contains_key(&self, key: &str) -> (r: bool)
        ensures
            r == self.view().contains_key(key@),
    {
        let key = key.to_owned();
        self.position(&key).is_some()
    }

    /// The keys and ticks of the time signatures after tick `tick`, each
    /// once.
    pub fn time_signatures_after(&self, tick: u32) -> (r: (Vec<String>, Vec<u32>))
        requires
            self.wf(),
        ensures
            r.0@.len() == r.1@.len(),
            key_views(r.0@).no_duplicates(),
            forall|j: int| 0 <= j < r.0@.len() ==> {
                &&& self.view().contains_key(#[trigger] r.0@[j]@)
                &&& self.view()[r.0@[j]@] is TimeSignature
                &&& self.view()[r.0@[j]@].tick_view() == r.1@[j]
                &&& r.1@[j] > tick
            },
            forall|k: Seq<char>|
                #[trigger] self.view().contains_key(k) && self.view()[k] is TimeSignature
                    && self.view()[k].tick_view() > tick ==> key_views(r.0@).contains(k),
    {
        let mut keys: Vec<String> = Vec::new();
        let mut ticks: Vec<u32> = Vec::new();
        let ghost mut idx: Seq<int> = Seq::empty();
        let mut i: usize = 0;
        while i < self.entries.by_key.len()
            invariant
                self.wf(),
                i <= self.entries.by_key@.len(),
                keys@.len() == ticks@.len(),
                idx.len() == keys@.len(),
                key_views(keys@).no_duplicates(),
                forall|j: int| #![trigger idx[j]] 0 <= j < keys@.len() ==> {
                    &&& 0 <= idx[j] < i
                    &&& self.entries.by_key@[idx[j]].key_view() == keys@[j]@
                    &&& self.entries.by_key@[idx[j]] is TimeSignature
                    &&& self.entries.by_key@[idx[j]].tick_view() == ticks@[j]
                    &&& ticks@[j] > tick
                },
                forall|m: int|
                    0 <= m < i && #[trigger] self.entries.by_key@[m] is TimeSignature
                        && self.entries.by_key@[m].tick_view() > tick ==> key_views(keys@).contains(
                        self.entries.by_key@[m].key_view(),
                    ),
            decreases self.entries.by_key.len() - i,
        {
            let ghost ks = keys@;
            match &self.entries.by_key[i] {
                Entry::TimeSignature(ts) => {
                    if ts.tick > tick {
                        let k = ts.key.clone();
                        proof {
                            assert(!key_views(ks).contains(k@)) by {
                                if key_views(ks).contains(k@) {
                                    let j = choose|j: int| 0 <= j < key_views(ks).len() && key_views(ks)[j] == k@;
                                    assert(ks[j]@ == k@);
                                    assert(self.entries.by_key@[idx[j]].key_view() != self.entries.by_key@[i as int].key_view());
                                }
                            }
                            lemma_key_views_push(ks, k);
                            idx = idx.push(i as int);
                        }
                        keys.push(k);
                        ticks.push(ts.tick);
                    }
                },
                _ => {},
            }
            i = i + 1;
        }
        proof {
            assert forall|j: int| 0 <= j < keys@.len() implies {
                &&& self.view().contains_key(#[trigger] keys@[j]@)
                &&& self.view()[keys@[j]@] is TimeSignature
                &&& self.view()[keys@[j]@].tick_view() == ticks@[j]
                &&& ticks@[j] > tick
            } by {
                assert(idx[j] == idx[j]);
                self.lemma_entry_of(idx[j]);
            }
            assert forall|k: Seq<char>|
                #[trigger] self.view().contains_key(k) && self.view()[k] is TimeSignature
                    && self.view()[k].tick_view() > tick implies key_views(keys@).contains(k) by {
                let m = choose|m: int| 0 <= m < self.entries.by_key@.len() && #[trigger] self.entries.by_key@[m].key_view() == k;
                self.lemma_entry_of(m);
            }
        }
        (keys, ticks)
    }

    /// Each entry is recorded under its own key.
    pub proof fn lemma_view_keys(&self)
        requires
            self.wf(),
        ensures
            forall|k: Seq<char>| #[trigger] self.view().contains_key(k) ==> self.view()[k].key_view() == k,
    {
        assert forall|k: Seq<char>| #[trigger] self.view().contains_key(k) implies self.view()[k].key_view() == k by {
            let i = choose|i: int| 0 <= i < self.entries.by_key@.len() && #[trigger] self.entries.by_key@[i].key_view() == k;
            self.lemma_entry_of(i);
        }
    }

    /// The time signature found at a tick is one of the track's entries at
    /// that tick; and when there is none, no time signature stands there.
    pub proof fn lemma_time_signature_at_entry(&self, t: u32)
        requires
            self.wf(),
        ensures
            self.time_signature_at(t) matches Some(ts) ==> self.view().contains_key(ts.key@)
                && self.view()[ts.key@] == Entry::TimeSignature(ts) && ts.tick == t,
            self.time_signature_at(t) is None ==> !self.has_time_signature_at(t),
    {
        self.lemma_index_consistency();
        self.lemma_view_keys();
        let b = self.bucket(t);
        self.lemma_time_signature_in_found(b);
        if self.time_signature_at(t) is Some {
            let ts = self.time_signature_at(t)->Some_0;
            let j = choose|j: int| 0 <= j < b.len() && self.view()[#[trigger] b[j]] == Entry::TimeSignature(ts);
            assert(b.contains(b[j]));
        }
        if self.has_time_signature_at(t) {
            let k = choose|k: Seq<char>|
                #[trigger] self.view().contains_key(k) && self.view()[k] is TimeSignature && self.view()[k].tick_view() == t;
            assert(b.contains(k));
            let jk = choose|j: int| 0 <= j < b.len() && b[j] == k;
            assert(self.view()[b[jk]] is TimeSignature);
        }
    }

    /// A time signature found from `from` on stands in `[from, end)`.
    pub proof fn lemma_time_signature_from(&self, from: int, end: int)
        requires
            self.wf(),
        ensures
            self.time_signature_from(from, end) matches Some(ts) ==> from <= ts.tick < end,
        decreases end - from,
    {
        if from < end && 0 <= from <= u32::MAX {
            self.lemma_time_signature_at_tick(from as u32);
            if self.time_signature_at(from as u32) is None {
                self.lemma_time_signature_from(from + 1, end);
            }
        }
    }

    /// Take out the time signature at `tick`, if one stands there.
    pub fn remove_time_signature_at(&mut self, tick: u32)
        requires
            old(self).wf(),
            old(self).singletons_per_tick(),
        ensures
            final(self).wf(),
            final(self).key == old(self).key,
            final(self).view() == without_meter_at(old(self).view(), tick),
    {
        let ghost v = self.view();
        let old_key: Option<String> = match self.get_time_signature_at_tick(tick) {
            Some(ts) => Some(ts.key.clone()),
            None => None,
        };
        proof {
            self.lemma_time_signature_at_entry(tick);
        }
        match old_key {
            Some(k) => {
                let _ = self.remove(k.as_str());
                assert(self.view() =~= without_meter_at(v, tick));
            },
            None => {
                assert(self.view() =~= without_meter_at(v, tick));
            },
        }
    }

    /// Every time signature after `tick` can move `shift` ticks later and
    /// still have a tick.
    pub fn meters_fit_after(&self, tick: u32, shift: u32) -> (r: bool)
        requires
            self.wf(),
        ensures
            r == forall|k: Seq<char>|
                #[trigger] self.view().contains_key(k) && self.view()[k] is TimeSignature
                    && self.view()[k].tick_view() > tick ==> self.view()[k].tick_view() + shift <= u32::MAX,
    {
        let (keys, ticks) = self.time_signatures_after(tick);
        let mut j: usize = 0;
        while j < keys.len()
            invariant
                self.wf(),
                j <= keys@.len(),
                keys@.len() == ticks@.len(),
                forall|m: int| 0 <= m < j ==> ticks@[m] + shift <= u32::MAX,
                forall|m: int| 0 <= m < keys@.len() ==> {
                    &&& self.view().contains_key(#[trigger] keys@[m]@)
                    &&& self.view()[keys@[m]@] is TimeSignature
                    &&& self.view()[keys@[m]@].tick_view() == ticks@[m]
                    &&& ticks@[m] > tick
                },
                forall|k: Seq<char>|
                    #[trigger] self.view().contains_key(k) && self.view()[k] is TimeSignature
                        && self.view()[k].tick_view() > tick ==> key_views(keys@).contains(k),
            decreases keys.len() - j,
        {
            if ticks[j] as u64 + shift as u64 > u32::MAX as u64 {
                assert(self.view().contains_key(keys@[j as int]@));
                return false;
            }
            j = j + 1;
        }
        proof {
            assert forall|k: Seq<char>|
                #[trigger] self.view().contains_key(k) && self.view()[k] is TimeSignature
                    && self.view()[k].tick_view() > tick implies self.view()[k].tick_view() + shift <= u32::MAX by {
                let m = choose|m: int| 0 <= m < key_views(keys@).len() && key_views(keys@)[m] == k;
                assert(keys@[m]@ == k);
            }
        }
        true
    }

    /// Move every time signature after `tick` by `shift` ticks.
    pub fn shift_time_signatures_after(&mut self, tick: u32, shift: u32)
        requires
            old(self).wf(),
            forall|k: Seq<char>|
                #[trigger] old(self).view().contains_key(k) && old(self).view()[k] is TimeSignature
                    && old(self).view()[k].tick_view() > tick ==> old(self).view()[k].tick_view() + shift
                    <= u32::MAX,
        ensures
            final(self).wf(),
            final(self).key == old(self).key,
            final(self).view() == shift_meters(old(self).view(), tick, shift as nat),
    {
        let ghost v1 = self.view();
        let (keys, ticks) = self.time_signatures_after(tick);
        let mut j: usize = 0;
        proof {
            assert(self.view() =~= shift_keys(v1, key_views(keys@).take(0), shift as nat));
        }
        while j < keys.len()
            invariant
                j <= keys@.len(),
                keys@.len() == ticks@.len(),
                self.wf(),
                self.key == old(self).key,
                self.view() == shift_keys(v1, key_views(keys@).take(j as int), shift as nat),
                key_views(keys@).no_duplicates(),
                forall|m: int| 0 <= m < keys@.len() ==> {
                    &&& v1.contains_key(#[trigger] keys@[m]@)
                    &&& v1[keys@[m]@] is TimeSignature
                    &&& v1[keys@[m]@].tick_view() == ticks@[m]
                    &&& ticks@[m] > tick
                },
                forall|k: Seq<char>|
                    #[trigger] v1.contains_key(k) && v1[k] is TimeSignature && v1[k].tick_view() > tick
                        ==> v1[k].tick_view() + shift <= u32::MAX,
            decreases keys.len() - j,
        {
            let ghost kj = keys@[j as int]@;
            assert(v1.contains_key(kj));
            self.move_entry(keys[j].as_str(), ticks[j] + shift);
            proof {
                assert(key_views(keys@)[j as int] == kj);
                assert(key_views(keys@).take(j + 1) =~= key_views(keys@).take(j as int).push(kj));
                assert(!key_views(keys@).take(j as int).contains(kj)) by {
                    if key_views(keys@).take(j as int).contains(kj) {
                        let q = choose|q: int| 0 <= q < j && key_views(keys@).take(j as int)[q] == kj;
                        assert(key_views(keys@)[q] == key_views(keys@)[j as int]);
                    }
                }
                assert(self.view() =~= shift_keys(v1, key_views(keys@).take(j + 1), shift as nat));
            }
            j = j + 1;
        }
        proof {
            assert(key_views(keys@).take(keys@.len() as int) =~= key_views(keys@));
            assert forall|k: Seq<char>| #[trigger] v1.contains_key(k) implies (key_views(keys@).contains(k) <==> (
            v1[k] is TimeSignature && v1[k].tick_view() > tick)) by {
                if key_views(keys@).contains(k) {
                    let m = choose|m: int| 0 <= m < key_views(keys@).len() && key_views(keys@)[m] == k;
                    assert(keys@[m]@ == k);
                }
            }
            assert(self.view() =~= shift_meters(v1, tick, shift as nat));
        }
    }

    proof fn lemma_tempo_in_found(&self, b: Seq<Seq<char>>)
        ensures
            self.tempo_in(b) matches Some(tp) ==> exists|j: int|
                0 <= j < b.len() && self.view()[#[trigger] b[j]] == Entry::AbsoluteTempo(tp),
            (exists|j: int| 0 <= j < b.len() && self.view()[#[trigger] b[j]] is AbsoluteTempo)
                ==> self.tempo_in(b) is Some,
        decreases b.len(),
    {
        if b.len() > 0 {
            self.lemma_tempo_in_found(b.skip(1));
            if self.tempo_in(b) is Some && !(self.view()[b[0]] is AbsoluteTempo) {
                let tp = self.tempo_in(b)->Some_0;
                let j = choose|j: int| 0 <= j < b.skip(1).len() && self.view()[#[trigger] b.skip(1)[j]] == Entry::AbsoluteTempo(tp);
                assert(b[j + 1] == b.skip(1)[j]);
            }
            if exists|j: int| 0 <= j < b.len() && self.view()[#[trigger] b[j]] is AbsoluteTempo {
                let j = choose|j: int| 0 <= j < b.len() && self.view()[#[trigger] b[j]] is AbsoluteTempo;
                if j > 0 {
                    assert(b.skip(1)[j - 1] == b[j]);
                }
            }
        }
    }

    /// The tempo marking found at a tick is one of the track's entries at
    /// that tick; and when there is none, no tempo marking stands there.
    pub proof fn lemma_tempo_at_entry(&self, t: u32)
        requires
            self.wf(),
        ensures
            self.tempo_at(t) matches Some(tp) ==> self.view().contains_key(tp.key@)
                && self.view()[tp.key@] == Entry::AbsoluteTempo(tp) && tp.tick == t,
            self.tempo_at(t) is None ==> forall|k: Seq<char>|
                #[trigger] self.view().contains_key(k) && self.view()[k] is AbsoluteTempo ==> self.view()[k].tick_view() != t,
    {
        self.lemma_index_consistency();
        self.lemma_view_keys();
        let b = self.bucket(t);
        self.lemma_tempo_in_found(b);
        if self.tempo_at(t) is Some {
            let tp = self.tempo_at(t)->Some_0;
            let j = choose|j: int| 0 <= j < b.len() && self.view()[#[trigger] b[j]] == Entry::AbsoluteTempo(tp);
            assert(b.contains(b[j]));
        }
        assert forall|k: Seq<char>|
            #[trigger] self.view().contains_key(k) && self.view()[k] is AbsoluteTempo && self.view()[k].tick_view() == t
                implies self.tempo_at(t) is Some by {
            assert(b.contains(k));
            let jk = choose|j: int| 0 <= j < b.len() && b[j] == k;
            assert(self.view()[b[jk]] is AbsoluteTempo);
        }
    }

    /// Take out the tempo marking at `tick`, if one stands there.
    pub fn remove_tempo_at(&mut self, tick: u32)
        requires
            old(self).wf(),
            old(self).singletons_per_tick(),
        ensures
            final(self).wf(),
            final(self).key == old(self).key,
            final(self).view() == without_tempo_at(old(self).view(), tick),
    {
        let ghost v = self.view();
        let old_key: Option<String> = match self.get_absolute_tempo_at_tick(tick) {
            Some(tp) => Some(tp.key.clone()),
            None => None,
        };
        proof {
            self.lemma_tempo_at_entry(tick);
        }
        match old_key {
            Some(k) => {
                let _ = self.remove(k.as_str());
                assert(self.view() =~= without_tempo_at(v, tick));
            },
            None => {
                assert(self.view() =~= without_tempo_at(v, tick));
            },
        }
    }

    /// Put `e` in place of the entry at position `i`, which has the same key
    /// and tick.
    fn replace_at(&mut self, i: usize, e: Entry)
        requires
            old(self).wf(),
            i < old(self).entries.by_key@.len(),
            e.key_view() == old(self).entries.by_key@[i as int].key_view(),
            e.tick_view() == old(self).entries.by_key@[i as int].tick_view(),
        ensures
            final(self).wf(),
            final(self).key == old(self).key,
            final(self).view() == old(self).view().insert(e.key_view(), e),
    {
        let ghost pre = *self;
        self.entries.by_key.set(i, e);
        proof {
            let s = self.entries.by_key@;
            let ps = pre.entries.by_key@;
            assert forall|j: int| 0 <= j < s.len() && j != i implies #[trigger] s[j] == ps[j] by {}
            assert forall|a: int, b: int| 0 <= a < b < s.len() implies #[trigger] s[a].key_view()
                != #[trigger] s[b].key_view() by {
                assert(s[a].key_view() == ps[a].key_view());
                assert(s[b].key_view() == ps[b].key_view());
            }
            assert forall|j: int| 0 <= j < s.len() implies self.bucket(#[trigger] s[j].tick_view()).contains(
                s[j].key_view(),
            ) by {
                assert(pre.bucket(ps[j].tick_view()).contains(ps[j].key_view()));
            }
            assert forall|u: u32, j: int| 0 <= j < self.bucket(u).len() implies self.holds_at(
                #[trigger] self.bucket(u)[j],
                u,
            ) by {
                assert(pre.holds_at(pre.bucket(u)[j], u));
                let m = choose|m: int|
                    0 <= m < ps.len() && #[trigger] ps[m].key_view() == pre.bucket(u)[j] && ps[m].tick_view() == u;
                assert(s[m].key_view() == ps[m].key_view() && s[m].tick_view() == ps[m].tick_view());
            }
            assert forall|u: u32| (#[trigger] self.bucket(u)).no_duplicates() by {
                assert(pre.bucket(u).no_duplicates());
            }
            assert(self.wf());
            let k = e.key_view();
            let target = pre.view().insert(k, e);
            assert forall|x: Seq<char>| #[trigger] self.view().contains_key(x) == target.contains_key(x) by {
                if pre.has_key(x) {
                    let m = choose|m: int| 0 <= m < ps.len() && #[trigger] ps[m].key_view() == x;
                    assert(s[m].key_view() == x);
                }
                if self.has_key(x) {
                    let m = choose|m: int| 0 <= m < s.len() && #[trigger] s[m].key_view() == x;
                    assert(ps[m].key_view() == x);
                }
                assert(s[i as int].key_view() == k);
            }
            assert forall|x: Seq<char>| #[trigger] self.view().contains_key(x) implies self.view()[x] == target[x] by {
                let m = choose|m: int| 0 <= m < s.len() && #[trigger] s[m].key_view() == x;
                self.lemma_entry_of(m);
                pre.lemma_entry_of(m);
            }
            assert(self.view() =~= target);
        }
    }

    /// The entry of key `key`, if there is one.
    pub fn get_entry(&self, key: &str) -> (r: Option<&Entry>)
        requires
            self.wf(),
        ensures
            match r {
                Some(e) => self.view().contains_key(key@) && self.view()[key@] == *e,
                None => !self.view().contains_key(key@),
            },
    {
        let key = key.to_owned();
        match self.position(&key) {
            Some(i) => {
                proof {
                    self.lemma_entry_of(i as int);
                }
                Some(&self.entries.by_key[i])
            },
            None => None,
        }
    }
}

} // verus!
