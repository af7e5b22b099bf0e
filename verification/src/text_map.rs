//! A map whose keys are texts.

use vstd::prelude::*;

use crate::text;

verus! {

/// A map from texts to values, none of which need be comparable or copyable.
pub struct TextMap<V> {
    entries: Vec<(String, V)>,
}

spec fn map_of<V>(entries: Seq<(String, V)>) -> Map<Seq<char>, V>
    decreases entries.len(),
{
    if entries.len() == 0 {
        Map::empty()
    } else {
        map_of(entries.drop_last()).insert(entries.last().0@, entries.last().1)
    }
}

spec fn distinct<V>(entries: Seq<(String, V)>) -> bool {
    forall|i: int, j: int|
        #![trigger entries[i], entries[j]]
        0 <= i < j < entries.len() ==> entries[i].0@ != entries[j].0@
}

spec fn has_key<V>(entries: Seq<(String, V)>, k: Seq<char>) -> bool {
    exists|i: int| 0 <= i < entries.len() && (#[trigger] entries[i]).0@ == k
}

proof fn lemma_map_of<V>(entries: Seq<(String, V)>)
    requires
        distinct(entries),
    ensures
        forall|k: Seq<char>| #[trigger] map_of(entries).dom().contains(k) <==> has_key(entries, k),
        forall|i: int|
            0 <= i < entries.len() ==> map_of(entries)[(#[trigger] entries[i]).0@] == entries[i].1,
    decreases entries.len(),
{
    if entries.len() > 0 {
        let front = entries.drop_last();
        let last = entries.last();
        lemma_map_of(front);
        assert forall|k: Seq<char>| #[trigger] map_of(entries).dom().contains(k) <==> has_key(
            entries,
            k,
        ) by {
            assert(map_of(entries).dom().contains(k) <==> map_of(front).dom().contains(k) || k
                == last.0@);
            if has_key(front, k) {
                let i = choose|i: int| 0 <= i < front.len() && (#[trigger] front[i]).0@ == k;
                assert(entries[i].0@ == k);
            }
            if has_key(entries, k) && k != last.0@ {
                let i = choose|i: int| 0 <= i < entries.len() && (#[trigger] entries[i]).0@ == k;
                assert(front[i].0@ == k);
            }
            assert(entries[entries.len() - 1] == last);
        }
        assert forall|i: int| 0 <= i < entries.len() implies map_of(entries)[(#[trigger] entries[i]).0@]
            == entries[i].1 by {
            if i < entries.len() - 1 {
                assert(front[i] == entries[i]);
                assert(entries[i].0@ != entries[entries.len() - 1].0@);
            }
        }
    }
}

proof fn lemma_removed<V>(entries: Seq<(String, V)>, i: int)
    requires
        distinct(entries),
        0 <= i < entries.len(),
    ensures
        distinct(entries.remove(i)),
        map_of(entries.remove(i)) == map_of(entries).remove(entries[i].0@),
{
    let after = entries.remove(i);
    assert forall|x: int, y: int|
        #![trigger after[x], after[y]]
        0 <= x < y < after.len() implies after[x].0@ != after[y].0@ by {
        let x0 = if x < i { x } else { x + 1 };
        let y0 = if y < i { y } else { y + 1 };
        assert(after[x] == entries[x0] && after[y] == entries[y0]);
    }
    lemma_map_of(entries);
    lemma_map_of(after);
    let m = map_of(entries).remove(entries[i].0@);
    assert(map_of(after) =~= m) by {
        assert forall|k: Seq<char>| map_of(after).dom().contains(k) <==> m.dom().contains(k) by {
            if has_key(after, k) {
                let x = choose|x: int| 0 <= x < after.len() && (#[trigger] after[x]).0@ == k;
                let x0 = if x < i { x } else { x + 1 };
                assert(entries[x0].0@ == k);
                assert(entries[x0].0@ != entries[i].0@);
            }
            if has_key(entries, k) && k != entries[i].0@ {
                let x0 = choose|x0: int| 0 <= x0 < entries.len() && (#[trigger] entries[x0]).0@ == k;
                let x = if x0 < i { x0 } else { x0 - 1 };
                assert(after[x].0@ == k);
            }
        }
        assert forall|k: Seq<char>| map_of(after).dom().contains(k) implies map_of(after)[k]
            == m[k] by {
            let x = choose|x: int| 0 <= x < after.len() && (#[trigger] after[x]).0@ == k;
            let x0 = if x < i { x } else { x + 1 };
            assert(entries[x0] == after[x]);
        }
    }
}

impl<V> TextMap<V> {
    /// The contents.
    pub closed spec fn view(&self) -> Map<Seq<char>, V> {
        map_of(self.entries@)
    }

    #[verifier::type_invariant]
    spec fn keys_distinct(&self) -> bool {
        distinct(self.entries@)
    }

    /// The empty map.
    pub fn new() -> (r: TextMap<V>)
        ensures
            r@ == Map::<Seq<char>, V>::empty(),
    {
        TextMap { entries: Vec::new() }
    }

    fn position(&self, k: &str) -> (r: Option<usize>)
        ensures
            match r {
                Some(i) => i < self.entries@.len() && self.entries@[i as int].0@ == k@
                    && self@.dom().contains(k@) && self@[k@] == self.entries@[i as int].1,
                None => !self@.dom().contains(k@),
            },
    {
        proof {
            use_type_invariant(self);
            lemma_map_of(self.entries@);
        }
        let mut i: usize = 0;
        while i < self.entries.len()
            invariant
                i <= self.entries@.len(),
                forall|j: int| 0 <= j < i ==> (#[trigger] self.entries@[j]).0@ != k@,
                forall|k: Seq<char>| #[trigger]
                    self@.dom().contains(k) <==> has_key(self.entries@, k),
                forall|i: int|
                    0 <= i < self.entries@.len() ==> self@[(#[trigger] self.entries@[i]).0@]
                        == self.entries@[i].1,
            decreases self.entries@.len() - i,
        {
            if text::same_text(self.entries[i].0.as_str(), k) {
                assert(has_key(self.entries@, k@));
                return Some(i);
            }
            i = i + 1;
        }
        None
    }

    /// The value under a key.
    pub fn get(&self, k: &str) -> (r: Option<&V>)
        ensures
            match r {
                Some(v) => self@.dom().contains(k@) && self@[k@] == *v,
                None => !self@.dom().contains(k@),
            },
    {
        match self.position(k) {
            Some(i) => Some(&self.entries[i].1),
            None => None,
        }
    }

    /// Takes the value under a key out of the map.
    pub fn remove(&mut self, k: &str) -> (r: Option<V>)
        ensures
            final(self)@ == old(self)@.remove(k@),
            match r {
                Some(v) => old(self)@.dom().contains(k@) && old(self)@[k@] == v,
                None => !old(self)@.dom().contains(k@),
            },
    {
        match self.position(k) {
            Some(i) => {
                proof {
                    use_type_invariant(&*self);
                    lemma_removed(self.entries@, i as int);
                }
                let mut entries: Vec<(String, V)> = Vec::new();
                std::mem::swap(&mut self.entries, &mut entries);
                let (_, v) = entries.remove(i);
                self.entries = entries;
                Some(v)
            },
            None => {
                assert(self@.remove(k@) =~= self@);
                None
            },
        }
    }

    /// Puts a value under a key, in place of what stood there.
    pub fn insert(&mut self, k: String, v: V)
        ensures
            final(self)@ == old(self)@.insert(k@, v),
    {
        let _ = self.remove(k.as_str());
        let ghost before = self@;
        proof {
            use_type_invariant(&*self);
            lemma_map_of(self.entries@);
        }
        let mut entries: Vec<(String, V)> = Vec::new();
        std::mem::swap(&mut self.entries, &mut entries);
        let ghost front = entries@;
        entries.push((k, v));
        proof {
            assert(entries@.drop_last() =~= front);
            assert forall|x: int, y: int|
                #![trigger entries@[x], entries@[y]]
                0 <= x < y < entries@.len() implies entries@[x].0@ != entries@[y].0@ by {
                assert(entries@[x] == front[x]);
                if y == front.len() {
                    assert(!map_of(front).dom().contains(k@));
                    assert(entries@[y].0 == k);
                    if front[x].0@ == k@ {
                        assert(has_key(front, k@));
                    }
                } else {
                    assert(entries@[y] == front[y]);
                }
            }
            assert(before.insert(k@, v) =~= old(self)@.insert(k@, v));
        }
        self.entries = entries;
    }

    /// Drops the entries whose value `closed` holds of.
    pub fn retain_open<F: Fn(&V) -> bool>(&mut self, closed: F)
        requires
            forall|v: &V| call_requires(closed, (v,)),
        ensures
            retained(old(self)@, final(self)@, closed),
    {
        let mut entries: Vec<(String, V)> = Vec::new();
        proof {
            use_type_invariant(&*self);
        }
        std::mem::swap(&mut self.entries, &mut entries);
        let ghost before = map_of(entries@);
        let mut i: usize = 0;
        while i < entries.len()
            invariant
                i <= entries@.len(),
                distinct(entries@),
                forall|v: &V| call_requires(closed, (v,)),
                forall|j: int|
                    0 <= j < i ==> call_ensures(closed, (&(#[trigger] entries@[j]).1,), false),
                forall|k: Seq<char>| #[trigger]
                    map_of(entries@).dom().contains(k) ==> before.dom().contains(k) && map_of(
                        entries@,
                    )[k] == before[k],
                forall|k: Seq<char>| #[trigger]
                    before.dom().contains(k) && !map_of(entries@).dom().contains(k)
                        ==> call_ensures(closed, (&before[k],), true),
            decreases entries@.len() - i,
        {
            let ghost shorter = entries@.remove(i as int);
            proof {
                lemma_map_of(entries@);
                lemma_removed(entries@, i as int);
                assert(has_key(entries@, entries@[i as int].0@));
                assert(map_of(entries@).dom().contains(entries@[i as int].0@));
                assert forall|j: int| 0 <= j < i implies #[trigger] shorter[j] == entries@[j] by {}
            }
            if closed(&entries[i].1) {
                let _ = entries.remove(i);
            } else {
                i = i + 1;
            }
        }
        proof {
            lemma_map_of(entries@);
            assert forall|k: Seq<char>| #[trigger]
                map_of(entries@).dom().contains(k) implies call_ensures(
                closed,
                (&before[k],),
                false,
            ) by {
                let j = choose|j: int| 0 <= j < entries@.len() && (#[trigger] entries@[j]).0@ == k;
            }
        }
        self.entries = entries;
    }
}

/// `after` holds the entries of `before` whose value `closed` does not hold of, and no
/// others.
pub open spec fn retained<V, F: Fn(&V) -> bool>(
    before: Map<Seq<char>, V>,
    after: Map<Seq<char>, V>,
    closed: F,
) -> bool {
    &&& forall|k: Seq<char>| #[trigger]
        after.dom().contains(k) ==> before.dom().contains(k) && after[k] == before[k]
            && call_ensures(closed, (&before[k],), false)
    &&& forall|k: Seq<char>| #[trigger]
        before.dom().contains(k) && !after.dom().contains(k) ==> call_ensures(
            closed,
            (&before[k],),
            true,
        )
}

/// Nothing that is open is dropped, nothing that is closed is kept, and what is kept is not
/// changed.
pub proof fn law_only_the_closed_is_dropped<V, F: Fn(&V) -> bool>(
    before: Map<Seq<char>, V>,
    after: Map<Seq<char>, V>,
    closed: F,
    k: Seq<char>,
)
    requires
        retained(before, after, closed),
    ensures
        before.dom().contains(k) && !call_ensures(closed, (&before[k],), true)
            ==> after.dom().contains(k) && after[k] == before[k],
        before.dom().contains(k) && !call_ensures(closed, (&before[k],), false)
            ==> !after.dom().contains(k),
        after.dom().contains(k) ==> before.dom().contains(k) && after[k] == before[k],
{
}

} // verus!
