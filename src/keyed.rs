use vstd::prelude::*;

verus! {

/// A value that carries its own key.
pub trait Keyed {
    spec fn key_of(&self) -> Seq<char>;

    fn key_str(&self) -> (r: &String)
        ensures
            r@ == self.key_of(),
    ;
}

/// No two items of `s` share a key.
pub open spec fn keys_unique<T: Keyed>(s: Seq<T>) -> bool {
    forall|i: int, j: int| 0 <= i < j < s.len() ==> #[trigger] s[i].key_of() != #[trigger] s[j].key_of()
}

/// Some item of `s` has key `k`.
pub open spec fn has_key<T: Keyed>(s: Seq<T>, k: Seq<char>) -> bool {
    exists|i: int| 0 <= i < s.len() && #[trigger] s[i].key_of() == k
}

/// The items of `s` by key.
pub open spec fn keyed<T: Keyed>(s: Seq<T>) -> Map<Seq<char>, T> {
    Map::new(
        |k: Seq<char>| has_key(s, k),
        |k: Seq<char>| s[choose|i: int| 0 <= i < s.len() && #[trigger] s[i].key_of() == k],
    )
}

/// In a list of unique keys, each item is found under its key.
pub proof fn lemma_keyed_index<T: Keyed>(s: Seq<T>, i: int)
    requires
        keys_unique(s),
        0 <= i < s.len(),
    ensures
        keyed(s).contains_key(s[i].key_of()),
        keyed(s)[s[i].key_of()] == s[i],
{
    let k = s[i].key_of();
    assert(has_key(s, k));
    let j = choose|j: int| 0 <= j < s.len() && #[trigger] s[j].key_of() == k;
    if j != i {
        if j < i {
            assert(s[j].key_of() != s[i].key_of());
        } else {
            assert(s[i].key_of() != s[j].key_of());
        }
    }
}

/// Appending an item of a new key records it under that key.
pub proof fn lemma_keyed_push<T: Keyed>(s: Seq<T>, x: T)
    requires
        keys_unique(s),
        !keyed(s).contains_key(x.key_of()),
    ensures
        keys_unique(s.push(x)),
        keyed(s.push(x)) == keyed(s).insert(x.key_of(), x),
{
    let t = s.push(x);
    assert forall|i: int, j: int| 0 <= i < j < t.len() implies #[trigger] t[i].key_of() != #[trigger] t[j].key_of() by {
        if j == s.len() {
            assert(t[i] == s[i]);
            if s[i].key_of() == x.key_of() {
                assert(has_key(s, x.key_of()));
            }
        } else {
            assert(t[i] == s[i] && t[j] == s[j]);
        }
    }
    assert forall|k: Seq<char>| #[trigger] keyed(t).contains_key(k) == keyed(s).insert(x.key_of(), x).contains_key(k) by {
        if has_key(s, k) {
            let i = choose|i: int| 0 <= i < s.len() && #[trigger] s[i].key_of() == k;
            assert(t[i] == s[i]);
        }
        if has_key(t, k) && k != x.key_of() {
            let i = choose|i: int| 0 <= i < t.len() && #[trigger] t[i].key_of() == k;
            assert(t[i] == s[i]);
        }
        assert(t[s.len() as int] == x);
    }
    assert forall|k: Seq<char>| #[trigger] keyed(t).contains_key(k) implies keyed(t)[k] == keyed(s).insert(x.key_of(), x)[k] by {
        let i = choose|i: int| 0 <= i < t.len() && #[trigger] t[i].key_of() == k;
        lemma_keyed_index(t, i);
        if i < s.len() {
            assert(t[i] == s[i]);
            lemma_keyed_index(s, i);
        }
    }
    assert(keyed(t) =~= keyed(s).insert(x.key_of(), x));
}

/// Removing the item at `i` drops its key.
pub proof fn lemma_keyed_remove<T: Keyed>(s: Seq<T>, i: int)
    requires
        keys_unique(s),
        0 <= i < s.len(),
    ensures
        keys_unique(s.remove(i)),
        keyed(s.remove(i)) == keyed(s).remove(s[i].key_of()),
{
    let t = s.remove(i);
    assert forall|a: int, b: int| 0 <= a < b < t.len() implies #[trigger] t[a].key_of() != #[trigger] t[b].key_of() by {
        let pa = if a < i { a } else { a + 1 };
        let pb = if b < i { b } else { b + 1 };
        assert(t[a] == s[pa] && t[b] == s[pb]);
    }
    assert forall|k: Seq<char>| #[trigger] keyed(t).contains_key(k) == keyed(s).remove(s[i].key_of()).contains_key(k) by {
        if has_key(s, k) && k != s[i].key_of() {
            let m = choose|m: int| 0 <= m < s.len() && #[trigger] s[m].key_of() == k;
            let nm = if m < i { m } else { m - 1 };
            assert(t[nm] == s[m]);
        }
        if has_key(t, k) {
            let m = choose|m: int| 0 <= m < t.len() && #[trigger] t[m].key_of() == k;
            let pm = if m < i { m } else { m + 1 };
            assert(t[m] == s[pm]);
            assert(s[pm].key_of() != s[i].key_of());
        }
    }
    assert forall|k: Seq<char>| #[trigger] keyed(t).contains_key(k) implies keyed(t)[k] == keyed(s).remove(
        s[i].key_of(),
    )[k] by {
        let m = choose|m: int| 0 <= m < t.len() && #[trigger] t[m].key_of() == k;
        let pm = if m < i { m } else { m + 1 };
        assert(t[m] == s[pm]);
        lemma_keyed_index(t, m);
        lemma_keyed_index(s, pm);
    }
    assert(keyed(t) =~= keyed(s).remove(s[i].key_of()));
}

/// Replacing the item at `i` by one of the same key replaces it in the map.
pub proof fn lemma_keyed_update<T: Keyed>(s: Seq<T>, i: int, x: T)
    requires
        keys_unique(s),
        0 <= i < s.len(),
        x.key_of() == s[i].key_of(),
    ensures
        keys_unique(s.update(i, x)),
        keyed(s.update(i, x)) == keyed(s).insert(x.key_of(), x),
{
    let t = s.update(i, x);
    assert forall|a: int, b: int| 0 <= a < b < t.len() implies #[trigger] t[a].key_of() != #[trigger] t[b].key_of() by {
        assert(t[a].key_of() == s[a].key_of() && t[b].key_of() == s[b].key_of());
    }
    assert forall|k: Seq<char>| #[trigger] keyed(t).contains_key(k) == keyed(s).insert(x.key_of(), x).contains_key(k) by {
        if has_key(s, k) {
            let m = choose|m: int| 0 <= m < s.len() && #[trigger] s[m].key_of() == k;
            assert(t[m].key_of() == k);
        }
        if has_key(t, k) {
            let m = choose|m: int| 0 <= m < t.len() && #[trigger] t[m].key_of() == k;
            assert(s[m].key_of() == k);
        }
        assert(t[i] == x);
    }
    assert forall|k: Seq<char>| #[trigger] keyed(t).contains_key(k) implies keyed(t)[k] == keyed(s).insert(x.key_of(), x)[k] by {
        let m = choose|m: int| 0 <= m < t.len() && #[trigger] t[m].key_of() == k;
        lemma_keyed_index(t, m);
        if m != i {
            lemma_keyed_index(s, m);
        }
    }
    assert(keyed(t) =~= keyed(s).insert(x.key_of(), x));
}

/// Where the item of key `key` stands in `v`.
pub fn find<T: Keyed>(v: &Vec<T>, key: &str) -> (r: Option<usize>)
    ensures
        match r {
            Some(i) => i < v@.len() && v@[i as int].key_of() == key@,
            None => !has_key(v@, key@),
        },
{
    let wanted = key.to_owned();
    let mut i: usize = 0;
    while i < v.len()
        invariant
            i <= v@.len(),
            wanted@ == key@,
            forall|j: int| 0 <= j < i ==> #[trigger] v@[j].key_of() != key@,
        decreases v.len() - i,
    {
        if *v[i].key_str() == wanted {
            return Some(i);
        }
        i = i + 1;
    }
    None
}

} // verus!
