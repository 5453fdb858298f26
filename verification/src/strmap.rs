//! Header and query-parameter maps: name-to-value associations where the
//! last write to a name wins, viewed as a mathematical `Map`.

use vstd::prelude::*;

verus! {

/// The map an association list denotes: later entries overwrite earlier ones.
pub open spec fn assoc_map(s: Seq<(Seq<char>, Seq<char>)>) -> Map<Seq<char>, Seq<char>>
    decreases s.len(),
{
    if s.len() == 0 {
        Map::empty()
    } else {
        assoc_map(s.drop_last()).insert(s.last().0, s.last().1)
    }
}

/// No two entries share a name.
pub open spec fn pairs_unique(s: Seq<(Seq<char>, Seq<char>)>) -> bool {
    forall|i: int, j: int| 0 <= i < j < s.len() ==> (#[trigger] s[i]).0 != (#[trigger] s[j]).0
}

/// Some entry of `s` has the name `k`.
pub open spec fn has_key(s: Seq<(Seq<char>, Seq<char>)>, k: Seq<char>) -> bool {
    exists|i: int| 0 <= i < s.len() && (#[trigger] s[i]).0 == k
}

/// The value of the last entry of `s` named `k`.
pub open spec fn last_value(s: Seq<(Seq<char>, Seq<char>)>, k: Seq<char>) -> Seq<char>
    decreases s.len(),
{
    if s.len() == 0 {
        Seq::empty()
    } else if s.last().0 == k {
        s.last().1
    } else {
        last_value(s.drop_last(), k)
    }
}

/// `m` with the entries of `adds` written over it, in order.
pub open spec fn merge_into(
    m: Map<Seq<char>, Seq<char>>,
    adds: Seq<(Seq<char>, Seq<char>)>,
) -> Map<Seq<char>, Seq<char>>
    decreases adds.len(),
{
    if adds.len() == 0 {
        m
    } else {
        merge_into(m, adds.drop_last()).insert(adds.last().0, adds.last().1)
    }
}

/// A name is in the association's map exactly when some entry carries it.
pub proof fn lemma_assoc_contains(s: Seq<(Seq<char>, Seq<char>)>, k: Seq<char>)
    ensures
        assoc_map(s).contains_key(k) <==> has_key(s, k),
    decreases s.len(),
{
    if s.len() == 0 {
    } else {
        lemma_assoc_contains(s.drop_last(), k);
        if s.last().0 == k {
            assert(s[s.len() - 1].0 == k);
        } else if has_key(s.drop_last(), k) {
            let i = choose|i: int| 0 <= i < s.drop_last().len() && (#[trigger] s.drop_last()[i]).0 == k;
            assert(s[i].0 == k);
        } else if has_key(s, k) {
            let i = choose|i: int| 0 <= i < s.len() && (#[trigger] s[i]).0 == k;
            assert(i == s.len() - 1 || s.drop_last()[i].0 == k);
        }
    }
}

/// With unique names, the entry named `k` gives the map's value at `k`.
pub proof fn lemma_assoc_value(s: Seq<(Seq<char>, Seq<char>)>, i: int)
    requires
        pairs_unique(s),
        0 <= i < s.len(),
    ensures
        assoc_map(s).contains_key(s[i].0),
        assoc_map(s)[s[i].0] == s[i].1,
    decreases s.len(),
{
    if i == s.len() - 1 {
    } else {
        assert(pairs_unique(s.drop_last())) by {
            assert(forall|x: int| 0 <= x < s.len() - 1 ==> s.drop_last()[x] == s[x]);
        }
        assert(s.drop_last()[i] == s[i]);
        lemma_assoc_value(s.drop_last(), i);
        assert(s[i].0 != s.last().0);
    }
}

/// The association's map is finite and has one key per entry.
pub proof fn lemma_assoc_dom_len(s: Seq<(Seq<char>, Seq<char>)>)
    requires
        pairs_unique(s),
    ensures
        assoc_map(s).dom().finite(),
        assoc_map(s).dom().len() == s.len(),
    decreases s.len(),
{
    if s.len() == 0 {
        assert(assoc_map(s).dom() =~= Set::<Seq<char>>::empty());
    } else {
        assert(pairs_unique(s.drop_last())) by {
            assert(forall|x: int| 0 <= x < s.len() - 1 ==> s.drop_last()[x] == s[x]);
        }
        lemma_assoc_dom_len(s.drop_last());
        lemma_assoc_contains(s.drop_last(), s.last().0);
        assert(!has_key(s.drop_last(), s.last().0)) by {
            if has_key(s.drop_last(), s.last().0) {
                let i = choose|i: int|
                    0 <= i < s.drop_last().len() && (#[trigger] s.drop_last()[i]).0 == s.last().0;
                assert(s[i].0 == s[s.len() - 1].0);
            }
        }
        assert(assoc_map(s).dom() =~= assoc_map(s.drop_last()).dom().insert(s.last().0));
    }
}

/// Overwriting the entry named `k` updates the association's map at `k`.
pub proof fn lemma_assoc_update(s: Seq<(Seq<char>, Seq<char>)>, i: int, v: Seq<char>)
    requires
        pairs_unique(s),
        0 <= i < s.len(),
    ensures
        assoc_map(s.update(i, (s[i].0, v))) == assoc_map(s).insert(s[i].0, v),
        pairs_unique(s.update(i, (s[i].0, v))),
    decreases s.len(),
{
    let k = s[i].0;
    let t = s.update(i, (k, v));
    assert(pairs_unique(t)) by {
        assert(forall|x: int| 0 <= x < s.len() && x != i ==> t[x] == s[x]);
        assert(t[i].0 == s[i].0);
    }
    if i == s.len() - 1 {
        assert(t.drop_last() =~= s.drop_last());
        assert(t.last() == (k, v));
        assert(assoc_map(s.drop_last()).insert(k, s.last().1).insert(k, v) =~= assoc_map(
            s.drop_last(),
        ).insert(k, v));
    } else {
        assert(pairs_unique(s.drop_last())) by {
            assert(forall|x: int| 0 <= x < s.len() - 1 ==> s.drop_last()[x] == s[x]);
        }
        assert(s.drop_last()[i] == s[i]);
        lemma_assoc_update(s.drop_last(), i, v);
        assert(t.drop_last() =~= s.drop_last().update(i, (k, v)));
        assert(t.last() == s.last());
        assert(k != s.last().0);
        assert(assoc_map(s.drop_last()).insert(k, v).insert(s.last().0, s.last().1) =~= assoc_map(
            s.drop_last(),
        ).insert(s.last().0, s.last().1).insert(k, v));
    }
}

/// What one name holds after a merge: the last added value if any entry of
/// `adds` carries the name, else whatever the base map held.
pub proof fn lemma_merge_at_key(
    m: Map<Seq<char>, Seq<char>>,
    adds: Seq<(Seq<char>, Seq<char>)>,
    k: Seq<char>,
)
    ensures
        merge_into(m, adds).contains_key(k) <==> (m.contains_key(k) || has_key(adds, k)),
        has_key(adds, k) ==> merge_into(m, adds)[k] == last_value(adds, k),
        !has_key(adds, k) && m.contains_key(k) ==> merge_into(m, adds)[k] == m[k],
    decreases adds.len(),
{
    if adds.len() == 0 {
    } else {
        lemma_merge_at_key(m, adds.drop_last(), k);
        if adds.last().0 == k {
            assert(adds[adds.len() - 1].0 == k);
        } else {
            assert(has_key(adds.drop_last(), k) <==> has_key(adds, k)) by {
                if has_key(adds.drop_last(), k) {
                    let i = choose|i: int|
                        0 <= i < adds.drop_last().len() && (#[trigger] adds.drop_last()[i]).0 == k;
                    assert(adds[i].0 == k);
                }
                if has_key(adds, k) {
                    let i = choose|i: int| 0 <= i < adds.len() && (#[trigger] adds[i]).0 == k;
                    assert(i != adds.len() - 1);
                    assert(adds.drop_last()[i].0 == k);
                }
            }
        }
    }
}

/// Merging the same additions a second time changes nothing.
pub proof fn lemma_merge_idempotent(
    m: Map<Seq<char>, Seq<char>>,
    adds: Seq<(Seq<char>, Seq<char>)>,
)
    ensures
        merge_into(merge_into(m, adds), adds) == merge_into(m, adds),
{
    let m1 = merge_into(m, adds);
    let m2 = merge_into(m1, adds);
    assert forall|k: Seq<char>| #[trigger] m2.contains_key(k) implies m1.contains_key(k) by {
        lemma_merge_at_key(m, adds, k);
        lemma_merge_at_key(m1, adds, k);
    }
    assert forall|k: Seq<char>| #[trigger] m1.contains_key(k) implies m2.contains_key(k)
        && m2[k] == m1[k] by {
        lemma_merge_at_key(m, adds, k);
        lemma_merge_at_key(m1, adds, k);
    }
    assert(m2 =~= m1);
}

/// A name-to-value map held as an association list with unique names; the
/// view is the `Map` the list denotes, where the last write to a name wins.
pub struct StrMap {
    entries: Vec<(String, String)>,
}

impl View for StrMap {
    type V = Map<Seq<char>, Seq<char>>;

    open spec fn view(&self) -> Map<Seq<char>, Seq<char>> {
        assoc_map(self.pairs())
    }
}

impl StrMap {
    /// The entries as mathematical pairs, in insertion order.
    pub closed spec fn pairs(&self) -> Seq<(Seq<char>, Seq<char>)> {
        Seq::new(self.entries@.len(), |i: int| (self.entries@[i].0@, self.entries@[i].1@))
    }

    /// Entry names are pairwise distinct.
    pub open spec fn wf(&self) -> bool {
        pairs_unique(self.pairs())
    }

    /// The empty map.
    pub fn new() -> (r: StrMap)
        ensures
            r@ == Map::<Seq<char>, Seq<char>>::empty(),
            r.pairs() == Seq::<(Seq<char>, Seq<char>)>::empty(),
            r.wf(),
    {
        let r = StrMap { entries: Vec::new() };
        proof {
            assert(r.pairs() =~= Seq::<(Seq<char>, Seq<char>)>::empty());
        }
        r
    }

    /// Drop every entry.
    pub fn clear(&mut self)
        ensures
            final(self)@ == Map::<Seq<char>, Seq<char>>::empty(),
            final(self).pairs() == Seq::<(Seq<char>, Seq<char>)>::empty(),
            final(self).wf(),
    {
        self.entries.clear();
        proof {
            assert(self.pairs() =~= Seq::<(Seq<char>, Seq<char>)>::empty());
        }
    }

    /// Write `v` under the name `k`, replacing any earlier value.
    pub fn insert(&mut self, k: String, v: String)
        requires
            old(self).wf(),
        ensures
            final(self)@ == old(self)@.insert(k@, v@),
            final(self).wf(),
    {
        let n = self.entries.len();
        let mut i: usize = 0;
        while i < n
            invariant
                n == self.entries.len(),
                i <= n,
                self == old(self),
                self.wf(),
                forall|j: int| 0 <= j < i ==> (#[trigger] self.pairs()[j]).0 != k@,
            decreases n - i,
        {
            if self.entries[i].0 == k {
                proof {
                    assert(self.pairs()[i as int].0 == k@);
                }
                let ghost old_pairs = self.pairs();
                self.entries.set(i, (k, v));
                proof {
                    assert(self.pairs() =~= old_pairs.update(i as int, (old_pairs[i as int].0, v@)));
                    lemma_assoc_update(old_pairs, i as int, v@);
                    assert(old(self)@.insert(old_pairs[i as int].0, v@) =~= old(self)@.insert(
                        k@,
                        v@,
                    ));
                }
                return ;
            }
            i = i + 1;
        }
        let ghost old_pairs = self.pairs();
        proof {
            assert(!has_key(old_pairs, k@)) by {
                if has_key(old_pairs, k@) {
                    let j = choose|j: int|
                        0 <= j < old_pairs.len() && (#[trigger] old_pairs[j]).0 == k@;
                }
            }
        }
        self.entries.push((k, v));
        proof {
            assert(self.pairs() =~= old_pairs.push((k@, v@)));
            assert(self.pairs().drop_last() =~= old_pairs);
            assert(pairs_unique(self.pairs())) by {
                assert(forall|x: int| 0 <= x < old_pairs.len() ==> self.pairs()[x] == old_pairs[x]);
            }
        }
    }

    /// Whether any entry carries the name `k`.
    pub fn contains_key(&self, k: &str) -> (r: bool)
        ensures
            r == self@.contains_key(k@),
    {
        let n = self.entries.len();
        let mut i: usize = 0;
        while i < n
            invariant
                n == self.entries.len(),
                i <= n,
                forall|j: int| 0 <= j < i ==> (#[trigger] self.pairs()[j]).0 != k@,
            decreases n - i,
        {
            if crate::path::str_eq(self.entries[i].0.as_str(), k) {
                proof {
                    assert(self.pairs()[i as int].0 == k@);
                    lemma_assoc_contains(self.pairs(), k@);
                }
                return true;
            }
            i = i + 1;
        }
        proof {
            lemma_assoc_contains(self.pairs(), k@);
            if has_key(self.pairs(), k@) {
                let j = choose|j: int|
                    0 <= j < self.pairs().len() && (#[trigger] self.pairs()[j]).0 == k@;
            }
        }
        false
    }

    /// The value under the name `k`, if any entry carries it.
    pub fn get(&self, k: &str) -> (r: Option<&String>)
        requires
            self.wf(),
        ensures
            match r {
                Some(v) => self@.contains_key(k@) && v@ == self@[k@],
                None => !self@.contains_key(k@),
            },
    {
        let n = self.entries.len();
        let mut i: usize = 0;
        while i < n
            invariant
                n == self.entries.len(),
                i <= n,
                self.wf(),
                forall|j: int| 0 <= j < i ==> (#[trigger] self.pairs()[j]).0 != k@,
            decreases n - i,
        {
            if crate::path::str_eq(self.entries[i].0.as_str(), k) {
                proof {
                    assert(self.pairs()[i as int].0 == k@);
                    lemma_assoc_value(self.pairs(), i as int);
                }
                return Some(&self.entries[i].1);
            }
            i = i + 1;
        }
        proof {
            lemma_assoc_contains(self.pairs(), k@);
            if has_key(self.pairs(), k@) {
                let j = choose|j: int|
                    0 <= j < self.pairs().len() && (#[trigger] self.pairs()[j]).0 == k@;
            }
        }
        None
    }

    /// How many names the map holds.
    pub fn len(&self) -> (r: usize)
        requires
            self.wf(),
        ensures
            r == self@.dom().len(),
    {
        proof {
            lemma_assoc_dom_len(self.pairs());
        }
        self.entries.len()
    }

    /// The entries in insertion order.
    pub fn entries(&self) -> (r: &Vec<(String, String)>)
        ensures
            r@.len() == self.pairs().len(),
            forall|i: int|
                0 <= i < r@.len() ==> ((#[trigger] r@[i]).0@, r@[i].1@) == self.pairs()[i],
    {
        &self.entries
    }

    /// An identical map, entry for entry.
    pub fn duplicate(&self) -> (r: StrMap)
        ensures
            r.pairs() == self.pairs(),
            r@ == self@,
            r.wf() == self.wf(),
    {
        let n = self.entries.len();
        let mut v: Vec<(String, String)> = Vec::new();
        let mut i: usize = 0;
        while i < n
            invariant
                n == self.entries.len(),
                i <= n,
                v@.len() == i,
                forall|j: int| 0 <= j < i ==> (#[trigger] v@[j]).0@ == self.pairs()[j].0
                    && v@[j].1@ == self.pairs()[j].1,
            decreases n - i,
        {
            let k = self.entries[i].0.clone();
            let val = self.entries[i].1.clone();
            v.push((k, val));
            i = i + 1;
        }
        let r = StrMap { entries: v };
        proof {
            assert(r.pairs() =~= self.pairs());
        }
        r
    }

    /// Write every entry of `other` over this map, in `other`'s order.
    pub fn merge_from(&mut self, other: &StrMap)
        requires
            old(self).wf(),
        ensures
            final(self)@ == merge_into(old(self)@, other.pairs()),
            final(self).wf(),
    {
        let n = other.entries.len();
        let mut i: usize = 0;
        proof {
            assert(other.pairs().take(0) =~= Seq::<(Seq<char>, Seq<char>)>::empty());
        }
        while i < n
            invariant
                n == other.entries.len(),
                i <= n,
                self@ == merge_into(old(self)@, other.pairs().take(i as int)),
                self.wf(),
            decreases n - i,
        {
            let k = other.entries[i].0.clone();
            let v = other.entries[i].1.clone();
            self.insert(k, v);
            proof {
                let p = other.pairs();
                assert(p.take(i as int + 1).drop_last() =~= p.take(i as int));
                assert(p.take(i as int + 1).last() == p[i as int]);
            }
            i = i + 1;
        }
        proof {
            assert(other.pairs().take(n as int) =~= other.pairs());
        }
    }
}

} // verus!
