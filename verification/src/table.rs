//! Records under text keys, in the order in which the keys were added.

use vstd::prelude::*;

verus! {

/// The concurrent hash map that finds a record's place.
#[verifier::external_type_specification]
#[verifier::external_body]
#[verifier::reject_recursive_types(K)]
#[verifier::reject_recursive_types(V)]
#[verifier::reject_recursive_types(S)]
pub struct ExDashMap<K, V, S>(dashmap::DashMap<K, V, S>);

/// The places that a map holds, by key.
pub uninterp spec fn places(m: dashmap::DashMap<String, usize>) -> Map<Seq<char>, usize>;

/// `dashmap::DashMap::new`: a map without entries.
#[verifier::external_body]
fn no_places() -> (r: dashmap::DashMap<String, usize>)
    ensures
        places(r).dom() == Set::<Seq<char>>::empty(),
{
    dashmap::DashMap::new()
}

/// `dashmap::DashMap::get`: the place under a key. The map is borrowed, so no
/// other reference into it is held that could block the call.
#[verifier::external_body]
fn place_of(m: &dashmap::DashMap<String, usize>, key: &str) -> (r: Option<usize>)
    ensures
        match r {
            Some(p) => places(*m).contains_key(key@) && places(*m)[key@] == p,
            None => !places(*m).contains_key(key@),
        },
{
    match m.get(key) {
        Some(p) => Some(*p),
        None => None,
    }
}

/// `dashmap::DashMap::insert`: sets the place under a key. The map is borrowed
/// mutably, so no other reference into it is held that could block the call.
#[verifier::external_body]
fn set_place(m: &mut dashmap::DashMap<String, usize>, key: String, place: usize)
    ensures
        places(*final(m)) == places(*old(m)).insert(key@, place),
{
    m.insert(key, place);
}

/// The elements of `s` whose mark in `keep` is set, in their order.
pub open spec fn kept<A>(s: Seq<A>, keep: Seq<bool>) -> Seq<A>
    decreases s.len(),
{
    if s.len() == 0 {
        Seq::empty()
    } else if keep[s.len() - 1] {
        kept(s.drop_last(), keep).push(s.last())
    } else {
        kept(s.drop_last(), keep)
    }
}

/// One more element.
proof fn lemma_kept_step<A>(s: Seq<A>, keep: Seq<bool>, j: int)
    requires
        0 <= j < s.len(),
    ensures
        kept(s.take(j + 1), keep) == if keep[j] {
            kept(s.take(j), keep).push(s[j])
        } else {
            kept(s.take(j), keep)
        },
{
    assert(s.take(j + 1).drop_last() =~= s.take(j));
}

/// What is kept was there, and nothing is kept twice that was there once.
pub proof fn lemma_kept<A>(s: Seq<A>, keep: Seq<bool>)
    ensures
        kept(s, keep).len() <= s.len(),
        forall|x: A| #[trigger] kept(s, keep).contains(x) ==> s.contains(x),
        s.no_duplicates() ==> kept(s, keep).no_duplicates(),
    decreases s.len(),
{
    if s.len() > 0 {
        let rest = s.drop_last();
        lemma_kept(rest, keep);
        let front = kept(rest, keep);
        assert forall|x: A| #[trigger] kept(s, keep).contains(x) implies s.contains(x) by {
            let i = choose|i: int| 0 <= i < kept(s, keep).len() && kept(s, keep)[i] == x;
            if i < front.len() {
                assert(front.contains(x));
                assert(rest.contains(x));
                let k = choose|k: int| 0 <= k < rest.len() && rest[k] == x;
                assert(s[k] == x);
            } else {
                assert(s[s.len() - 1] == x);
            }
        }
        if s.no_duplicates() && keep[s.len() - 1] {
            if front.contains(s.last()) {
                assert(rest.contains(s.last()));
                let k = choose|k: int| 0 <= k < rest.len() && rest[k] == s.last();
                assert(s[k] == s[s.len() - 1]);
            }
        }
    }
}

/// Records under text keys.
pub struct Table<V> {
    index: dashmap::DashMap<String, usize>,
    keys: Vec<String>,
    rows: Vec<V>,
}

/// Whether `after` is the table `before` with `value` under `key`: in the place
/// of the record that was there, or behind all others.
pub open spec fn inserted<V>(before: Table<V>, key: Seq<char>, value: V, after: Table<V>) -> bool {
    if before.has(key) {
        &&& after.order() == before.order()
        &&& after.records() == before.records().update(before.order().index_of(key), value)
    } else {
        &&& after.order() == before.order().push(key)
        &&& after.records() == before.records().push(value)
    }
}

impl<V> Table<V> {
    /// The keys, in the order in which they were added.
    pub closed spec fn order(&self) -> Seq<Seq<char>> {
        self.keys@.map_values(|k: String| k@)
    }

    /// The records, in the order of their keys.
    pub closed spec fn records(&self) -> Seq<V> {
        self.rows@
    }

    /// The index finds every key at its place and nothing else.
    pub closed spec fn wf(&self) -> bool {
        &&& self.keys.len() == self.rows.len()
        &&& forall|i: int|
            0 <= i < self.keys.len() ==> places(self.index).contains_key(#[trigger] self.keys@[i]@)
                && places(self.index)[self.keys@[i]@] == i
        &&& forall|k: Seq<char>| #[trigger]
            places(self.index).contains_key(k) ==> places(self.index)[k] < self.keys.len()
                && self.keys@[places(self.index)[k] as int]@ == k
    }

    /// Whether there is a record under a key.
    pub open spec fn has(&self, key: Seq<char>) -> bool {
        self.order().contains(key)
    }

    /// The record under a key. Meaningful where there is one.
    pub open spec fn at(&self, key: Seq<char>) -> V {
        self.records()[self.order().index_of(key)]
    }

    /// Every key has one record, and no key occurs twice.
    pub proof fn lemma_wf(&self)
        requires
            self.wf(),
        ensures
            self.order().len() == self.records().len(),
            self.order().no_duplicates(),
    {
        assert forall|i: int, j: int|
            0 <= i < self.order().len() && 0 <= j < self.order().len() && i != j implies
            self.order()[i] != self.order()[j] by {
            assert(self.order()[i] == self.keys@[i]@);
            assert(self.order()[j] == self.keys@[j]@);
        }
    }

    /// The record at a place is the record under the key of that place.
    pub proof fn lemma_at(&self, i: int)
        requires
            self.wf(),
            0 <= i < self.order().len(),
        ensures
            self.has(self.order()[i]),
            self.order().index_of(self.order()[i]) == i,
            self.at(self.order()[i]) == self.records()[i],
    {
        self.lemma_wf();
        let key = self.order()[i];
        assert(self.order().contains(key));
    }

    /// A table without records.
    pub fn new() -> (r: Table<V>)
        ensures
            r.wf(),
            r.order() == Seq::<Seq<char>>::empty(),
            r.records() == Seq::<V>::empty(),
    {
        let r: Table<V> = Table { index: no_places(), keys: Vec::new(), rows: Vec::new() };
        assert(r.order() =~= Seq::<Seq<char>>::empty());
        r
    }

    /// The number of records.
    pub fn len(&self) -> (r: usize)
        requires
            self.wf(),
        ensures
            r == self.order().len(),
            r == self.records().len(),
    {
        self.rows.len()
    }

    /// The place of a key.
    pub fn find(&self, key: &str) -> (r: Option<usize>)
        requires
            self.wf(),
        ensures
            match r {
                Some(i) => self.has(key@) && i < self.order().len() && self.order()[i as int]
                    == key@ && self.order().index_of(key@) == i && self.records()[i as int]
                    == self.at(key@),
                None => !self.has(key@),
            },
    {
        let r: Option<usize> = place_of(&self.index, key);
        proof {
            match r {
                Some(i) => {
                    assert(self.order()[i as int] == key@);
                    self.lemma_at(i as int);
                },
                None => {
                    if self.has(key@) {
                        let i = self.order().index_of(key@);
                        assert(self.order()[i] == self.keys@[i]@);
                    }
                },
            }
        }
        r
    }

    /// The record under a key.
    pub fn get(&self, key: &str) -> (r: Option<&V>)
        requires
            self.wf(),
        ensures
            match r {
                Some(v) => self.has(key@) && *v == self.at(key@),
                None => !self.has(key@),
            },
    {
        match self.find(key) {
            Some(i) => Some(&self.rows[i]),
            None => None,
        }
    }

    /// The record at a place.
    pub fn row(&self, i: usize) -> (r: &V)
        requires
            self.wf(),
            i < self.records().len(),
        ensures
            *r == self.records()[i as int],
    {
        &self.rows[i]
    }

    /// The key at a place.
    pub fn key(&self, i: usize) -> (r: &str)
        requires
            self.wf(),
            i < self.order().len(),
        ensures
            r@ == self.order()[i as int],
    {
        self.keys[i].as_str()
    }

    /// Replaces the record at a place.
    pub fn set_row(&mut self, i: usize, value: V)
        requires
            old(self).wf(),
            i < old(self).records().len(),
        ensures
            final(self).wf(),
            final(self).order() == old(self).order(),
            final(self).records() == old(self).records().update(i as int, value),
    {
        self.rows.set(i, value);
    }

    /// The record at a place, to be changed.
    pub fn row_mut(&mut self, i: usize) -> (r: &mut V)
        requires
            old(self).wf(),
            i < old(self).records().len(),
        ensures
            *r == old(self).records()[i as int],
            final(self).wf(),
            final(self).order() == old(self).order(),
            final(self).records() == old(self).records().update(i as int, *final(r)),
    {
        &mut self.rows[i]
    }

    /// Sets the record under a key: replaces the one that is there, or adds one
    /// behind all others.
    pub fn insert(&mut self, key: String, value: V)
        requires
            old(self).wf(),
        ensures
            final(self).wf(),
            inserted(*old(self), key@, value, *final(self)),
    {
        match self.find(key.as_str()) {
            Some(i) => {
                self.set_row(i, value);
            },
            None => {
                let ghost before = *self;
                let place: usize = self.keys.len();
                proof {
                    if places(self.index).contains_key(key@) {
                        let i = places(self.index)[key@] as int;
                        assert(before.order()[i] == key@);
                    }
                }
                set_place(&mut self.index, key.clone(), place);
                self.keys.push(key);
                self.rows.push(value);
                proof {
                    assert(self.order() =~= before.order().push(key@));
                    assert forall|i: int| 0 <= i < self.keys.len() implies places(
                        self.index,
                    ).contains_key(#[trigger] self.keys@[i]@) && places(self.index)[self.keys@[i]@]
                        == i by {
                        if i < before.keys.len() {
                            assert(self.keys@[i] == before.keys@[i]);
                        }
                    }
                    assert forall|k: Seq<char>| #[trigger]
                        places(self.index).contains_key(k) implies places(self.index)[k]
                        < self.keys.len() && self.keys@[places(self.index)[k] as int]@ == k by {
                        if k != key@ {
                            assert(places(before.index).contains_key(k));
                        }
                    }
                }
            },
        }
    }

    /// Keeps the records whose mark is set, in their order, and drops the others.
    pub fn retain(&mut self, keep: &Vec<bool>)
        requires
            old(self).wf(),
            keep.len() == old(self).records().len(),
        ensures
            final(self).wf(),
            final(self).order() == kept(old(self).order(), keep@),
            final(self).records() == kept(old(self).records(), keep@),
    {
        let ghost before = *self;
        let ghost keys0 = self.keys@;
        let ghost rows0 = self.rows@;
        let count: usize = self.rows.len();
        let mut i: usize = 0;
        let mut j: usize = 0;
        assert(kept(keys0.take(0), keep@) + keys0.skip(0) =~= keys0);
        assert(kept(rows0.take(0), keep@) + rows0.skip(0) =~= rows0);
        while j < count
            invariant
                i <= j <= count,
                count == keep.len(),
                keys0.len() == count,
                rows0.len() == count,
                i == kept(keys0.take(j as int), keep@).len(),
                i == kept(rows0.take(j as int), keep@).len(),
                self.keys@ == kept(keys0.take(j as int), keep@) + keys0.skip(j as int),
                self.rows@ == kept(rows0.take(j as int), keep@) + rows0.skip(j as int),
            decreases count - j,
        {
            proof {
                lemma_kept_step(keys0, keep@, j as int);
                lemma_kept_step(rows0, keep@, j as int);
            }
            if keep[j] {
                i = i + 1;
            } else {
                self.keys.remove(i);
                self.rows.remove(i);
            }
            j = j + 1;
            assert(self.keys@ =~= kept(keys0.take(j as int), keep@) + keys0.skip(j as int));
            assert(self.rows@ =~= kept(rows0.take(j as int), keep@) + rows0.skip(j as int));
        }
        assert(keys0.take(j as int) =~= keys0);
        assert(rows0.take(j as int) =~= rows0);
        assert(self.keys@ =~= kept(keys0, keep@));
        assert(self.rows@ =~= kept(rows0, keep@));
        proof {
            before.lemma_wf();
            lemma_kept_view(keys0, keep@);
            lemma_kept(before.order(), keep@);
            lemma_kept_len(keys0, rows0, keep@);
            assert(before.order() == keys0.map_values(|k: String| k@));
            assert(self.order() == kept(before.order(), keep@));
        }
        let ghost order = self.order();
        let mut index: dashmap::DashMap<String, usize> = no_places();
        let mut k: usize = 0;
        while k < self.keys.len()
            invariant
                k <= self.keys.len(),
                order == self.keys@.map_values(|k: String| k@),
                order.no_duplicates(),
                forall|a: int|
                    0 <= a < k ==> places(index).contains_key(#[trigger] self.keys@[a]@)
                        && places(index)[self.keys@[a]@] == a,
                forall|key: Seq<char>| #[trigger]
                    places(index).contains_key(key) ==> places(index)[key] < k
                        && self.keys@[places(index)[key] as int]@ == key,
            decreases self.keys.len() - k,
        {
            let ghost old_places = places(index);
            set_place(&mut index, self.keys[k].clone(), k);
            proof {
                assert forall|a: int| 0 <= a < k + 1 implies places(index).contains_key(
                    #[trigger] self.keys@[a]@,
                ) && places(index)[self.keys@[a]@] == a by {
                    assert(order[a] == self.keys@[a]@);
                    assert(order[k as int] == self.keys@[k as int]@);
                }
                assert forall|key: Seq<char>| #[trigger]
                    places(index).contains_key(key) implies places(index)[key] < k + 1
                    && self.keys@[places(index)[key] as int]@ == key by {
                    if key != self.keys@[k as int]@ {
                        assert(old_places.contains_key(key));
                    }
                }
            }
            k = k + 1;
        }
        self.index = index;
    }
}

/// What is inserted is found under its key, and every other key keeps its
/// record.
pub proof fn law_inserted<V>(before: Table<V>, key: Seq<char>, value: V, after: Table<V>)
    requires
        before.wf(),
        after.wf(),
        inserted(before, key, value, after),
    ensures
        after.has(key),
        after.at(key) == value,
        forall|k: Seq<char>| #[trigger] after.has(k) <==> k == key || before.has(k),
        forall|k: Seq<char>| #[trigger] before.has(k) && k != key ==> after.at(k) == before.at(k),
{
    before.lemma_wf();
    after.lemma_wf();
    if before.has(key) {
        let i: int = before.order().index_of(key);
        assert(after.order()[i] == key);
        after.lemma_at(i);
    } else {
        let i: int = before.order().len() as int;
        assert(after.order()[i] == key);
        after.lemma_at(i);
    }
    assert forall|k: Seq<char>| #[trigger] after.has(k) <==> k == key || before.has(k) by {
        if after.has(k) {
            let j: int = after.order().index_of(k);
            if k != key {
                assert(before.order()[j] == k);
            }
        }
        if before.has(k) {
            let j: int = before.order().index_of(k);
            assert(after.order()[j] == k);
        }
    }
    assert forall|k: Seq<char>| #[trigger] before.has(k) && k != key implies after.at(k)
        == before.at(k) by {
        let j: int = before.order().index_of(k);
        before.lemma_at(j);
        assert(after.order()[j] == k);
        after.lemma_at(j);
    }
}

/// Keeping and taking views commute.
proof fn lemma_kept_view(keys: Seq<String>, keep: Seq<bool>)
    ensures
        kept(keys, keep).map_values(|k: String| k@) == kept(
            keys.map_values(|k: String| k@),
            keep,
        ),
    decreases keys.len(),
{
    let f = |k: String| k@;
    if keys.len() > 0 {
        lemma_kept_view(keys.drop_last(), keep);
        assert(keys.map_values(f).drop_last() =~= keys.drop_last().map_values(f));
    }
    assert(kept(keys, keep).map_values(f) =~= kept(keys.map_values(f), keep));
}

/// The same marks keep as many of two sequences of one length.
proof fn lemma_kept_len<A, B>(a: Seq<A>, b: Seq<B>, keep: Seq<bool>)
    requires
        a.len() == b.len(),
    ensures
        kept(a, keep).len() == kept(b, keep).len(),
    decreases a.len(),
{
    if a.len() > 0 {
        lemma_kept_len(a.drop_last(), b.drop_last(), keep);
    }
}

} // verus!
