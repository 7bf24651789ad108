//! A mapping from cookie names to cookie values.
//!
//! The map is a vector of pairs with pairwise distinct keys; its view is the
//! `Map<Seq<char>, Seq<char>>` that the pairs denote.  Inserting an existing
//! key overwrites its value.

use vstd::prelude::*;
use vstd::string::StrSliceExecFns;

verus! {

/// The map denoted by an association list, a later pair overwriting an
/// earlier one with the same key.
spec fn assoc_map(ps: Seq<(String, String)>) -> Map<Seq<char>, Seq<char>>
    decreases ps.len(),
{
    if ps.len() == 0 {
        Map::empty()
    } else {
        assoc_map(ps.drop_last()).insert(ps.last().0@, ps.last().1@)
    }
}

/// The keys of the list are exactly the keys of its map.
proof fn lemma_assoc_contains(ps: Seq<(String, String)>)
    ensures
        forall|k: Seq<char>|
            assoc_map(ps).contains_key(k) <==> exists|i: int| 0 <= i < ps.len() && ps[i].0@ == k,
    decreases ps.len(),
{
    if ps.len() > 0 {
        let q = ps.drop_last();
        lemma_assoc_contains(q);
        assert(forall|i: int| 0 <= i < q.len() ==> q[i] == ps[i]);
        assert forall|k: Seq<char>| assoc_map(ps).contains_key(k) implies exists|i: int|
            0 <= i < ps.len() && ps[i].0@ == k by {
            if k == ps.last().0@ {
                assert(ps[ps.len() - 1].0@ == k);
            } else {
                assert(assoc_map(q).contains_key(k));
                let i = choose|i: int| 0 <= i < q.len() && q[i].0@ == k;
                assert(ps[i].0@ == k);
            }
        }
        assert forall|k: Seq<char>|
            exists|i: int| 0 <= i < ps.len() && ps[i].0@ == k implies assoc_map(
            ps,
        ).contains_key(k) by {
            let i = choose|i: int| 0 <= i < ps.len() && ps[i].0@ == k;
            if i < ps.len() - 1 {
                assert(q[i].0@ == k);
                assert(assoc_map(q).contains_key(k));
            }
        }
    }
}

/// With distinct keys, the pair at `i` gives the map's value at its key.
proof fn lemma_assoc_get(ps: Seq<(String, String)>, i: int)
    requires
        forall|a: int, b: int| 0 <= a < b < ps.len() ==> ps[a].0@ != ps[b].0@,
        0 <= i < ps.len(),
    ensures
        assoc_map(ps).contains_key(ps[i].0@),
        assoc_map(ps)[ps[i].0@] == ps[i].1@,
    decreases ps.len(),
{
    if i == ps.len() - 1 {
    } else {
        assert(forall|a: int, b: int|
            0 <= a < b < ps.len() - 1 ==> ps.drop_last()[a].0@ != ps.drop_last()[b].0@);
        lemma_assoc_get(ps.drop_last(), i);
        assert(ps[i].0@ != ps.last().0@);
    }
}

/// With distinct keys, the map has exactly as many entries as the list.
proof fn lemma_assoc_len(ps: Seq<(String, String)>)
    requires
        forall|a: int, b: int| 0 <= a < b < ps.len() ==> ps[a].0@ != ps[b].0@,
    ensures
        assoc_map(ps).dom().finite(),
        assoc_map(ps).dom().len() == ps.len(),
    decreases ps.len(),
{
    if ps.len() > 0 {
        let q = ps.drop_last();
        assert(forall|a: int, b: int| 0 <= a < b < q.len() ==> q[a].0@ != q[b].0@);
        lemma_assoc_len(q);
        lemma_assoc_contains(q);
        assert(!assoc_map(q).contains_key(ps.last().0@));
        assert(assoc_map(ps).dom() =~= assoc_map(q).dom().insert(ps.last().0@));
    }
}

/// Removing the pair at `i` removes exactly its key from the map, keys being
/// distinct.
proof fn lemma_assoc_remove(ps: Seq<(String, String)>, i: int)
    requires
        forall|a: int, b: int| 0 <= a < b < ps.len() ==> ps[a].0@ != ps[b].0@,
        0 <= i < ps.len(),
    ensures
        assoc_map(ps.remove(i)) == assoc_map(ps).remove(ps[i].0@),
    decreases ps.len(),
{
    let q = ps.drop_last();
    assert(forall|a: int, b: int| 0 <= a < b < q.len() ==> q[a].0@ != q[b].0@);
    if i == ps.len() - 1 {
        lemma_assoc_contains(q);
        assert(!assoc_map(q).contains_key(ps.last().0@));
        assert(ps.remove(i) =~= q);
        assert(assoc_map(q) =~= assoc_map(q).insert(ps.last().0@, ps.last().1@).remove(
            ps.last().0@,
        ));
    } else {
        lemma_assoc_remove(q, i);
        assert(ps.remove(i).drop_last() =~= q.remove(i));
        assert(ps.remove(i).last() == ps.last());
        assert(ps[i].0@ != ps.last().0@);
        assert(assoc_map(q).remove(ps[i].0@).insert(ps.last().0@, ps.last().1@) =~= assoc_map(
            q,
        ).insert(ps.last().0@, ps.last().1@).remove(ps[i].0@));
    }
}

/// Appending a pair inserts its key, the map's other entries unchanged.
proof fn lemma_assoc_push(ps: Seq<(String, String)>, p: (String, String))
    ensures
        assoc_map(ps.push(p)) == assoc_map(ps).insert(p.0@, p.1@),
{
    assert(ps.push(p).drop_last() =~= ps);
    assert(ps.push(p).last() == p);
}

/// A mapping from cookie names to cookie values; keys are unique.
pub struct CookieMap {
    pairs: Vec<(String, String)>,
}

impl View for CookieMap {
    type V = Map<Seq<char>, Seq<char>>;

    closed spec fn view(&self) -> Map<Seq<char>, Seq<char>> {
        assoc_map(self.pairs@)
    }
}

impl CookieMap {
    #[verifier::type_invariant]
    spec fn inv(&self) -> bool {
        forall|a: int, b: int|
            0 <= a < b < self.pairs@.len() ==> self.pairs@[a].0@ != self.pairs@[b].0@
    }

    /// The empty mapping.
    pub fn new() -> (m: Self)
        ensures
            m@ == Map::<Seq<char>, Seq<char>>::empty(),
    {
        CookieMap { pairs: Vec::new() }
    }

    /// Insert a pair; an existing entry with the same key is overwritten.
    pub fn insert(&mut self, key: String, value: String)
        ensures
            final(self)@ == old(self)@.insert(key@, value@),
    {
        proof {
            use_type_invariant(&*self);
        }
        let mut ps: Vec<(String, String)> = Vec::new();
        core::mem::swap(&mut ps, &mut self.pairs);
        let ghost ps0 = ps@;
        let mut i: usize = 0;
        let n = ps.len();
        while i < n
            invariant
                n == ps.len(),
                i <= n,
                ps@ == ps0,
                forall|j: int| 0 <= j < i ==> ps@[j].0@ != key@,
                forall|a: int, b: int| 0 <= a < b < ps0.len() ==> ps0[a].0@ != ps0[b].0@,
                assoc_map(ps0) == old(self)@,
            decreases n - i,
        {
            if ps[i].0 == key {
                let _ = ps.remove(i);
                proof {
                    let qs = ps0.remove(i as int);
                    lemma_assoc_remove(ps0, i as int);
                    lemma_assoc_push(qs, (key, value));
                    assert(assoc_map(ps0).remove(key@).insert(key@, value@) =~= assoc_map(
                        ps0,
                    ).insert(key@, value@));
                    assert forall|a: int, b: int| 0 <= a < b < qs.len() implies qs[a].0@
                        != qs[b].0@ by {
                        let a0 = if a < i { a } else { a + 1 };
                        let b0 = if b < i { b } else { b + 1 };
                        assert(qs[a] == ps0[a0]);
                        assert(qs[b] == ps0[b0]);
                    }
                    assert forall|j: int| 0 <= j < qs.len() implies qs[j].0@ != key@ by {
                        let j0 = if j < i { j } else { j + 1 };
                        assert(qs[j] == ps0[j0]);
                        assert(ps0[i as int].0@ == key@);
                    }
                }
                ps.push((key, value));
                self.pairs = ps;
                return ;
            }
            i += 1;
        }
        proof {
            lemma_assoc_push(ps0, (key, value));
        }
        ps.push((key, value));
        self.pairs = ps;
    }

    /// The number of entries.
    pub fn len(&self) -> (n: usize)
        ensures
            n == self@.dom().len(),
    {
        proof {
            use_type_invariant(self);
            lemma_assoc_len(self.pairs@);
        }
        self.pairs.len()
    }

    /// The value stored under `key`, if any.
    pub fn get(&self, key: &str) -> (r: Option<String>)
        ensures
            match r {
                Some(v) => self@.contains_key(key@) && v@ == self@[key@],
                None => !self@.contains_key(key@),
            },
    {
        proof {
            use_type_invariant(self);
        }
        let mut i: usize = 0;
        let n = self.pairs.len();
        while i < n
            invariant
                n == self.pairs.len(),
                i <= n,
                forall|j: int| 0 <= j < i ==> self.pairs@[j].0@ != key@,
                self.inv(),
            decreases n - i,
        {
            if str_eq(key, self.pairs[i].0.as_str()) {
                proof {
                    lemma_assoc_get(self.pairs@, i as int);
                }
                return Some(self.pairs[i].1.clone());
            }
            i += 1;
        }
        proof {
            lemma_assoc_contains(self.pairs@);
        }
        None
    }

}

/// Character-for-character string equality.
fn str_eq(a: &str, b: &str) -> (r: bool)
    ensures
        r == (a@ == b@),
{
    let n = a.unicode_len();
    if n != b.unicode_len() {
        return false;
    }
    let mut i: usize = 0;
    while i < n
        invariant
            n == a@.len(),
            n == b@.len(),
            i <= n,
            forall|j: int| 0 <= j < i ==> a@[j] == b@[j],
        decreases n - i,
    {
        if a.get_char(i) != b.get_char(i) {
            return false;
        }
        i += 1;
    }
    proof {
        assert(a@ =~= b@);
    }
    true
}

} // verus!
