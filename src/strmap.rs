use vstd::prelude::*;

use crate::text::same_text;

verus! {

/// The pairs of a vector of string pairs, as character sequences.
pub open spec fn pairs_view(e: Seq<(String, String)>) -> Seq<(Seq<char>, Seq<char>)> {
    e.map_values(|p: (String, String)| (p.0@, p.1@))
}

/// The map that a sequence of pairs describes: a later pair wins over an
/// earlier one with the same key.
pub open spec fn map_of(e: Seq<(Seq<char>, Seq<char>)>) -> Map<Seq<char>, Seq<char>>
    decreases e.len(),
{
    if e.len() == 0 {
        Map::empty()
    } else {
        map_of(e.drop_last()).insert(e.last().0, e.last().1)
    }
}

/// `j` is the last index of `e` whose key is `k`.
pub open spec fn last_with_key(e: Seq<(Seq<char>, Seq<char>)>, k: Seq<char>, j: int) -> bool {
    0 <= j < e.len() && e[j].0 == k && forall|i: int| j < i < e.len() ==> #[trigger] e[i].0 != k
}

pub proof fn lemma_map_of_last(e: Seq<(Seq<char>, Seq<char>)>, k: Seq<char>, j: int)
    requires
        last_with_key(e, k, j),
    ensures
        map_of(e).contains_key(k),
        map_of(e)[k] == e[j].1,
    decreases e.len(),
{
    if j < e.len() - 1 {
        let d = e.drop_last();
        assert(e.last().0 != k);
        assert forall|i: int| j < i < d.len() implies #[trigger] d[i].0 != k by {
            assert(e[i].0 != k);
        }
        lemma_map_of_last(d, k, j);
    }
}

pub proof fn lemma_map_of_absent(e: Seq<(Seq<char>, Seq<char>)>, k: Seq<char>)
    requires
        forall|i: int| 0 <= i < e.len() ==> #[trigger] e[i].0 != k,
    ensures
        !map_of(e).contains_key(k),
    decreases e.len(),
{
    if e.len() > 0 {
        let d = e.drop_last();
        assert forall|i: int| 0 <= i < d.len() implies #[trigger] d[i].0 != k by {
            assert(e[i].0 != k);
        }
        lemma_map_of_absent(d, k);
    }
}

proof fn lemma_map_of_update(e: Seq<(Seq<char>, Seq<char>)>, j: int, v: Seq<char>)
    requires
        last_with_key(e, e[j].0, j),
    ensures
        map_of(e.update(j, (e[j].0, v))) == map_of(e).insert(e[j].0, v),
    decreases e.len(),
{
    let k = e[j].0;
    let u = e.update(j, (k, v));
    if j == e.len() - 1 {
        assert(u.drop_last() =~= e.drop_last());
        assert(map_of(u) =~= map_of(e).insert(k, v));
    } else {
        let d = e.drop_last();
        assert forall|i: int| j < i < d.len() implies #[trigger] d[i].0 != k by {
            assert(e[i].0 != k);
        }
        lemma_map_of_update(d, j, v);
        assert(u.drop_last() =~= d.update(j, (k, v)));
        assert(e.last().0 != k);
        assert(map_of(u) =~= map_of(e).insert(k, v));
    }
}

/// A map from strings to strings, kept as a vector of pairs in the order
/// keys were first inserted; inserting a key again replaces its value.
#[derive(Debug)]
pub struct StrMap {
    entries: Vec<(String, String)>,
}

impl View for StrMap {
    type V = Map<Seq<char>, Seq<char>>;

    open spec fn view(&self) -> Map<Seq<char>, Seq<char>> {
        map_of(self.pairs())
    }
}

impl StrMap {
    /// The pairs of the map, in the order they are kept.
    pub closed spec fn pairs(&self) -> Seq<(Seq<char>, Seq<char>)> {
        pairs_view(self.entries@)
    }

    pub fn new() -> (r: Self)
        ensures
            r.pairs() == Seq::<(Seq<char>, Seq<char>)>::empty(),
            r@ == Map::<Seq<char>, Seq<char>>::empty(),
    {
        let r = StrMap { entries: Vec::new() };
        assert(r.pairs() =~= Seq::<(Seq<char>, Seq<char>)>::empty());
        r
    }

    /// The last index whose key is `key`, if any.
    fn position(&self, key: &str) -> (r: Option<usize>)
        ensures
            match r {
                Some(j) => last_with_key(self.pairs(), key@, j as int),
                None => forall|i: int|
                    0 <= i < self.pairs().len() ==> #[trigger] self.pairs()[i].0 != key@,
            },
    {
        let mut i: usize = self.entries.len();
        while i > 0
            invariant
                i <= self.entries@.len(),
                self.pairs().len() == self.entries@.len(),
                forall|m: int| i <= m < self.pairs().len() ==> #[trigger] self.pairs()[m].0 != key@,
            decreases i,
        {
            i = i - 1;
            if same_text(self.entries[i].0.as_str(), key) {
                return Some(i);
            }
        }
        None
    }

    /// Binds `key` to `value`, replacing the value it had.
    pub fn insert(&mut self, key: String, value: String)
        ensures
            final(self)@ == old(self)@.insert(key@, value@),
            !old(self)@.contains_key(key@) ==> final(self).pairs() == old(self).pairs().push(
                (key@, value@),
            ),
            old(self)@.contains_key(key@) ==> exists|j: int|
                last_with_key(old(self).pairs(), key@, j) && final(self).pairs() == old(
                    self,
                ).pairs().update(j, (key@, value@)),
    {
        let pos = self.position(key.as_str());
        match pos {
            Some(j) => {
                proof {
                    lemma_map_of_update(self.pairs(), j as int, value@);
                }
                let ghost k = key@;
                self.entries.set(j, (key, value));
                proof {
                    assert(self.pairs() =~= old(self).pairs().update(j as int, (k, value@)));
                    lemma_map_of_last(old(self).pairs(), k, j as int);
                    assert(last_with_key(old(self).pairs(), k, j as int));
                }
            },
            None => {
                proof {
                    lemma_map_of_absent(self.pairs(), key@);
                }
                self.entries.push((key, value));
                proof {
                    assert(self.pairs().drop_last() =~= old(self).pairs());
                    assert(self.pairs() =~= old(self).pairs().push((key@, value@)));
                }
            },
        }
    }

    /// The value bound to `key`.
    pub fn get(&self, key: &str) -> (r: Option<&String>)
        ensures
            match r {
                Some(v) => self@.contains_key(key@) && v@ == self@[key@],
                None => !self@.contains_key(key@),
            },
    {
        match self.position(key) {
            Some(j) => {
                proof {
                    lemma_map_of_last(self.pairs(), key@, j as int);
                }
                Some(&self.entries[j].1)
            },
            None => {
                proof {
                    lemma_map_of_absent(self.pairs(), key@);
                }
                None
            },
        }
    }

    /// Whether `key` is bound.
    pub fn contains_key(&self, key: &str) -> (r: bool)
        ensures
            r == self@.contains_key(key@),
    {
        self.get(key).is_some()
    }

    /// The number of pairs kept.
    pub fn len(&self) -> (r: usize)
        ensures
            r == self.pairs().len(),
    {
        self.entries.len()
    }

    /// The pairs, in the order they are kept.
    pub fn entries(&self) -> (r: &Vec<(String, String)>)
        ensures
            pairs_view(r@) == self.pairs(),
    {
        &self.entries
    }

    /// A copy with the same pairs in the same order.
    pub fn duplicate(&self) -> (r: Self)
        ensures
            r.pairs() == self.pairs(),
            r@ == self@,
    {
        let mut entries: Vec<(String, String)> = Vec::new();
        let mut i: usize = 0;
        while i < self.entries.len()
            invariant
                i <= self.entries@.len(),
                entries@.len() == i,
                pairs_view(entries@) == pairs_view(self.entries@).take(i as int),
            decreases self.entries@.len() - i,
        {
            let ghost old_entries = entries@;
            let k = self.entries[i].0.clone();
            let v = self.entries[i].1.clone();
            entries.push((k, v));
            proof {
                assert(pairs_view(entries@)[i as int] == pairs_view(self.entries@)[i as int]);
                assert(pairs_view(entries@).drop_last() =~= pairs_view(old_entries));
            }
            i = i + 1;
            assert(pairs_view(entries@) =~= pairs_view(self.entries@).take(i as int));
        }
        assert(pairs_view(self.entries@).take(i as int) =~= pairs_view(self.entries@));
        StrMap { entries }
    }
}

} // verus!
