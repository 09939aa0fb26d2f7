//! Vectors of records with distinct text keys, viewed as maps from key to record.
use vstd::prelude::*;

verus! {

/// A record with a text key.
pub trait Keyed: Sized {
    spec fn key(&self) -> Seq<char>;

    fn key_text(&self) -> (k: &String)
        ensures
            k@ == self.key(),
    ;
}

/// The keys of `s` are distinct.
pub open spec fn keys_distinct<T: Keyed>(s: Seq<T>) -> bool {
    forall|i: int, j: int| 0 <= i < j < s.len() ==> s[i].key() != s[j].key()
}

/// Some record of `s` has key `k`.
pub open spec fn has_key<T: Keyed>(s: Seq<T>, k: Seq<char>) -> bool {
    exists|i: int| 0 <= i < s.len() && #[trigger] s[i].key() == k
}

/// The records of `s` by key.
pub open spec fn keyed_map<T: Keyed>(s: Seq<T>) -> Map<Seq<char>, T> {
    Map::new(
        |k: Seq<char>| has_key(s, k),
        |k: Seq<char>| s[choose|i: int| 0 <= i < s.len() && #[trigger] s[i].key() == k],
    )
}

pub proof fn lemma_keyed_at<T: Keyed>(s: Seq<T>, i: int)
    requires
        keys_distinct(s),
        0 <= i < s.len(),
    ensures
        keyed_map(s).contains_key(s[i].key()),
        keyed_map(s)[s[i].key()] == s[i],
{
    let k = s[i].key();
    assert(has_key(s, k));
    let c = choose|c: int| 0 <= c < s.len() && #[trigger] s[c].key() == k;
    if c < i {
        assert(s[c].key() != s[i].key());
    } else if i < c {
        assert(s[i].key() != s[c].key());
    }
}

pub proof fn lemma_keyed_push<T: Keyed>(s: Seq<T>, x: T)
    requires
        keys_distinct(s),
        !has_key(s, x.key()),
    ensures
        keys_distinct(s.push(x)),
        keyed_map(s.push(x)) == keyed_map(s).insert(x.key(), x),
{
    let p = s.push(x);
    assert forall|i: int, j: int| 0 <= i < j < p.len() implies p[i].key() != p[j].key() by {
        assert(p[i] == s[i]);
        if j < s.len() {
            assert(p[j] == s[j]);
        }
    }
    assert forall|k: Seq<char>| #[trigger] has_key(p, k) == (has_key(s, k) || k == x.key()) by {
        if has_key(s, k) {
            let i = choose|i: int| 0 <= i < s.len() && #[trigger] s[i].key() == k;
            assert(p[i] == s[i]);
        }
        if k == x.key() {
            assert(p[s.len() as int].key() == k);
        }
        if has_key(p, k) {
            let i = choose|i: int| 0 <= i < p.len() && #[trigger] p[i].key() == k;
            if i < s.len() {
                assert(p[i] == s[i]);
            }
        }
    }
    assert forall|k: Seq<char>| #[trigger] keyed_map(p).contains_key(k) implies keyed_map(p)[k]
        == keyed_map(s).insert(x.key(), x)[k] by {
        let i = choose|i: int| 0 <= i < p.len() && #[trigger] p[i].key() == k;
        lemma_keyed_at(p, i);
        if i < s.len() {
            assert(p[i] == s[i]);
            lemma_keyed_at(s, i);
        }
    }
    assert(keyed_map(p) =~= keyed_map(s).insert(x.key(), x));
}

pub proof fn lemma_keyed_remove<T: Keyed>(s: Seq<T>, i: int)
    requires
        keys_distinct(s),
        0 <= i < s.len(),
    ensures
        keys_distinct(s.remove(i)),
        keyed_map(s.remove(i)) == keyed_map(s).remove(s[i].key()),
{
    let q = s.remove(i);
    assert forall|a: int, b: int| 0 <= a < b < q.len() implies q[a].key() != q[b].key() by {
        let a2 = if a < i { a } else { a + 1 };
        let b2 = if b < i { b } else { b + 1 };
        assert(q[a] == s[a2] && q[b] == s[b2]);
    }
    assert forall|k: Seq<char>| #[trigger] has_key(q, k) == (has_key(s, k) && k != s[i].key()) by {
        if has_key(q, k) {
            let a = choose|a: int| 0 <= a < q.len() && #[trigger] q[a].key() == k;
            let a2 = if a < i { a } else { a + 1 };
            assert(q[a] == s[a2]);
        }
        if has_key(s, k) && k != s[i].key() {
            let a = choose|a: int| 0 <= a < s.len() && #[trigger] s[a].key() == k;
            assert(a != i);
            let a1 = if a < i { a } else { a - 1 };
            assert(q[a1] == s[a]);
        }
    }
    assert forall|k: Seq<char>| #[trigger] keyed_map(q).contains_key(k) implies keyed_map(q)[k]
        == keyed_map(s)[k] by {
        let a = choose|a: int| 0 <= a < q.len() && #[trigger] q[a].key() == k;
        lemma_keyed_at(q, a);
        let a2 = if a < i { a } else { a + 1 };
        assert(q[a] == s[a2]);
        lemma_keyed_at(s, a2);
    }
    assert(keyed_map(q) =~= keyed_map(s).remove(s[i].key()));
}

pub proof fn lemma_keyed_update<T: Keyed>(s: Seq<T>, i: int, x: T)
    requires
        keys_distinct(s),
        0 <= i < s.len(),
        x.key() == s[i].key(),
    ensures
        keys_distinct(s.update(i, x)),
        keyed_map(s.update(i, x)) == keyed_map(s).insert(x.key(), x),
{
    let u = s.update(i, x);
    assert forall|a: int, b: int| 0 <= a < b < u.len() implies u[a].key() != u[b].key() by {
        assert(u[a].key() == s[a].key() && u[b].key() == s[b].key());
    }
    assert forall|k: Seq<char>| #[trigger] has_key(u, k) == has_key(s, k) by {
        if has_key(u, k) {
            let a = choose|a: int| 0 <= a < u.len() && #[trigger] u[a].key() == k;
            assert(s[a].key() == k);
        }
        if has_key(s, k) {
            let a = choose|a: int| 0 <= a < s.len() && #[trigger] s[a].key() == k;
            assert(u[a].key() == k);
        }
    }
    assert forall|k: Seq<char>| #[trigger] keyed_map(u).contains_key(k) implies keyed_map(u)[k]
        == keyed_map(s).insert(x.key(), x)[k] by {
        let a = choose|a: int| 0 <= a < u.len() && #[trigger] u[a].key() == k;
        lemma_keyed_at(u, a);
        if a != i {
            assert(u[a] == s[a]);
            lemma_keyed_at(s, a);
        }
    }
    assert(keyed_map(u) =~= keyed_map(s).insert(x.key(), x));
}

/// The index of the record with key `k`.
pub fn position_of_key<T: Keyed>(s: &Vec<T>, k: &String) -> (res: Option<usize>)
    requires
        keys_distinct(s@),
    ensures
        match res {
            Some(i) => i < s@.len() && s@[i as int].key() == k@ && keyed_map(s@).contains_key(k@)
                && keyed_map(s@)[k@] == s@[i as int],
            None => !keyed_map(s@).contains_key(k@),
        },
{
    let mut i: usize = 0;
    while i < s.len()
        invariant
            keys_distinct(s@),
            i <= s@.len(),
            forall|j: int| 0 <= j < i ==> s@[j].key() != k@,
        decreases s@.len() - i,
    {
        if *s[i].key_text() == *k {
            proof {
                lemma_keyed_at(s@, i as int);
            }
            return Some(i);
        }
        i = i + 1;
    }
    None
}

/// Stores `x` under its key, replacing the record with that key.
pub fn upsert<T: Keyed>(s: &mut Vec<T>, x: T)
    requires
        keys_distinct(old(s)@),
    ensures
        keys_distinct(final(s)@),
        keyed_map(final(s)@) == keyed_map(old(s)@).insert(x.key(), x),
{
    let k = x.key_text().clone();
    match position_of_key(s, &k) {
        Some(i) => {
            proof {
                lemma_keyed_update(s@, i as int, x);
            }
            s.set(i, x);
        },
        None => {
            proof {
                lemma_keyed_push(s@, x);
            }
            s.push(x);
        },
    }
}

/// Removes the record with key `k`; whether there was one.
pub fn remove_key<T: Keyed>(s: &mut Vec<T>, k: &String) -> (removed: Option<T>)
    requires
        keys_distinct(old(s)@),
    ensures
        keys_distinct(final(s)@),
        keyed_map(final(s)@) == keyed_map(old(s)@).remove(k@),
        match removed {
            Some(x) => keyed_map(old(s)@).contains_key(k@) && keyed_map(old(s)@)[k@] == x && x.key()
                == k@,
            None => !keyed_map(old(s)@).contains_key(k@),
        },
{
    match position_of_key(s, k) {
        Some(i) => {
            proof {
                lemma_keyed_remove(s@, i as int);
            }
            Some(s.remove(i))
        },
        None => {
            assert(keyed_map(s@).remove(k@) =~= keyed_map(s@));
            None
        },
    }
}

} // verus!
