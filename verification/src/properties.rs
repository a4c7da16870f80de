//! A map from names to values, kept in the order of its names.
//!
//! The order is what makes everything written from such a map come out the
//! same every time.

use crate::text;
use vstd::prelude::*;

verus! {

/// Names and values, in ascending order of the names.
#[derive(Debug)]
pub struct Properties {
    entries: Vec<(String, String)>,
}

pub open spec fn keys_ascending(pairs: Seq<(Seq<char>, Seq<char>)>) -> bool {
    forall|i: int, j: int|
        0 <= i < j < pairs.len() ==> text::before(#[trigger] pairs[i].0, #[trigger] pairs[j].0)
}

pub open spec fn has_key(pairs: Seq<(Seq<char>, Seq<char>)>, key: Seq<char>) -> bool {
    exists|i: int| 0 <= i < pairs.len() && #[trigger] pairs[i].0 == key
}

pub open spec fn place_of(pairs: Seq<(Seq<char>, Seq<char>)>, key: Seq<char>) -> int {
    choose|i: int| 0 <= i < pairs.len() && #[trigger] pairs[i].0 == key
}

/// The map that a list of pairs makes.
pub open spec fn as_map(pairs: Seq<(Seq<char>, Seq<char>)>) -> Map<Seq<char>, Seq<char>> {
    Map::new(|key: Seq<char>| has_key(pairs, key), |key: Seq<char>| pairs[place_of(pairs, key)].1)
}

proof fn lemma_place(pairs: Seq<(Seq<char>, Seq<char>)>, i: int)
    requires
        keys_ascending(pairs),
        0 <= i < pairs.len(),
    ensures
        has_key(pairs, pairs[i].0),
        place_of(pairs, pairs[i].0) == i,
{
    let j = place_of(pairs, pairs[i].0);
    assert(pairs[i].0 == pairs[i].0);
    if i < j {
        text::lemma_before_total(pairs[i].0, pairs[j].0);
    }
    if j < i {
        text::lemma_before_total(pairs[j].0, pairs[i].0);
    }
}

/// Two lists in order that make the same map are the same list.
pub proof fn lemma_pairs_unique(
    one: Seq<(Seq<char>, Seq<char>)>,
    other: Seq<(Seq<char>, Seq<char>)>,
)
    requires
        keys_ascending(one),
        keys_ascending(other),
        as_map(one) == as_map(other),
    ensures
        one == other,
    decreases one.len(),
{
    if one.len() == 0 || other.len() == 0 {
        if one.len() > 0 {
            lemma_place(one, 0);
            assert(as_map(one).dom().contains(one[0].0));
            assert(has_key(other, one[0].0));
        }
        if other.len() > 0 {
            lemma_place(other, 0);
            assert(as_map(other).dom().contains(other[0].0));
            assert(has_key(one, other[0].0));
        }
        assert(one =~= other);
    } else {
        let a = one.last();
        let b = other.last();
        lemma_place(one, one.len() - 1);
        lemma_place(other, other.len() - 1);
        assert(as_map(one).dom().contains(a.0));
        assert(as_map(other).dom().contains(b.0));
        assert(has_key(other, a.0) && has_key(one, b.0));
        let i = place_of(other, a.0);
        let j = place_of(one, b.0);
        if a.0 != b.0 {
            assert(text::before(other[i].0, other[other.len() - 1].0));
            assert(text::before(one[j].0, one[one.len() - 1].0));
            text::lemma_before_total(a.0, b.0);
        }
        assert(as_map(one)[a.0] == a.1);
        assert(as_map(other)[b.0] == b.1);
        assert(a == b);
        let p = one.drop_last();
        let q = other.drop_last();
        assert(as_map(p) =~= as_map(q)) by {
            lemma_last_dropped(one);
            lemma_last_dropped(other);
        }
        lemma_pairs_unique(p, q);
        assert(one =~= p.push(a));
        assert(other =~= q.push(b));
    }
}

proof fn lemma_last_dropped(pairs: Seq<(Seq<char>, Seq<char>)>)
    requires
        keys_ascending(pairs),
        pairs.len() > 0,
    ensures
        as_map(pairs.drop_last()) == as_map(pairs).remove(pairs.last().0),
{
    let shorter = pairs.drop_last();
    let last = pairs.last();
    assert(keys_ascending(shorter)) by {
        assert forall|i: int, j: int| 0 <= i < j < shorter.len() implies text::before(
            #[trigger] shorter[i].0,
            #[trigger] shorter[j].0,
        ) by {
            assert(text::before(pairs[i].0, pairs[j].0));
        }
    }
    assert forall|key: Seq<char>|
        as_map(shorter).dom().contains(key) <==> as_map(pairs).remove(last.0).dom().contains(
            key,
        ) by {
        if has_key(shorter, key) {
            let i = place_of(shorter, key);
            assert(pairs[i].0 == key);
            text::lemma_before_total(pairs[i].0, pairs[pairs.len() - 1].0);
        }
        if has_key(pairs, key) && key != last.0 {
            let i = place_of(pairs, key);
            assert(shorter[i].0 == key);
        }
    }
    assert forall|key: Seq<char>| as_map(shorter).dom().contains(key) implies as_map(shorter)[key]
        == as_map(pairs).remove(last.0)[key] by {
        let i = place_of(shorter, key);
        assert(pairs[i].0 == key);
        lemma_place(pairs, i);
        lemma_place(shorter, i);
    }
    assert(as_map(shorter) =~= as_map(pairs).remove(last.0));
}

impl View for Properties {
    type V = Map<Seq<char>, Seq<char>>;

    closed spec fn view(&self) -> Map<Seq<char>, Seq<char>> {
        as_map(self.pairs())
    }
}

impl Properties {
    pub closed spec fn pairs(&self) -> Seq<(Seq<char>, Seq<char>)> {
        Seq::new(self.entries@.len(), |i: int| (self.entries@[i].0@, self.entries@[i].1@))
    }

    #[verifier::type_invariant]
    spec fn ordered(self) -> bool {
        keys_ascending(self.pairs())
    }

    pub fn new() -> (properties: Properties)
        ensures
            properties@ == Map::<Seq<char>, Seq<char>>::empty(),
    {
        let properties = Properties { entries: Vec::new() };
        assert(properties@ =~= Map::<Seq<char>, Seq<char>>::empty());
        properties
    }

    pub fn len(&self) -> (count: usize)
        ensures
            count == self.pairs().len(),
            self@ == as_map(self.pairs()),
            keys_ascending(self.pairs()),
    {
        proof {
            use_type_invariant(self);
        }
        self.entries.len()
    }

    /// The `at`-th name, in their order.
    pub fn key(&self, at: usize) -> (key: &String)
        requires
            at < self.pairs().len(),
        ensures
            key@ == self.pairs()[at as int].0,
    {
        &self.entries[at].0
    }

    /// The value of the `at`-th name.
    pub fn value(&self, at: usize) -> (value: &String)
        requires
            at < self.pairs().len(),
        ensures
            value@ == self.pairs()[at as int].1,
    {
        &self.entries[at].1
    }

    /// Where `key` is, or would be: how many names come before it.
    fn find(&self, key: &str) -> (at: usize)
        ensures
            at <= self.pairs().len(),
            forall|i: int| 0 <= i < at ==> text::before(#[trigger] self.pairs()[i].0, key@),
            forall|i: int|
                at <= i < self.pairs().len() ==> !text::before(#[trigger] self.pairs()[i].0, key@),
    {
        proof {
            use_type_invariant(self);
        }
        let mut at: usize = 0;
        while at < self.entries.len() && text::is_before(self.entries[at].0.as_str(), key)
            invariant
                at <= self.entries@.len(),
                keys_ascending(self.pairs()),
                forall|i: int| 0 <= i < at ==> text::before(#[trigger] self.pairs()[i].0, key@),
            decreases self.entries@.len() - at,
        {
            at = at + 1;
        }
        proof {
            assert forall|i: int| at <= i < self.pairs().len() implies !text::before(
                #[trigger] self.pairs()[i].0,
                key@,
            ) by {
                let first = self.pairs()[at as int].0;
                assert(!text::before(first, key@));
                if i > at && text::before(self.pairs()[i].0, key@) {
                    text::lemma_before_transitive(first, self.pairs()[i].0, key@);
                }
            }
        }
        at
    }

    pub fn get(&self, key: &str) -> (found: Option<&String>)
        ensures
            match found {
                Some(value) => self@.dom().contains(key@) && value@ == self@[key@],
                None => !self@.dom().contains(key@),
            },
    {
        proof {
            use_type_invariant(self);
        }
        let at: usize = self.find(key);
        if at < self.entries.len() && text::same_text(self.entries[at].0.as_str(), key) {
            proof {
                lemma_place(self.pairs(), at as int);
            }
            return Some(&self.entries[at].1);
        }
        proof {
            if has_key(self.pairs(), key@) {
                let i = place_of(self.pairs(), key@);
                text::lemma_before_total(self.pairs()[i].0, key@);
                if i > at {
                    let first = self.pairs()[at as int].0;
                    assert(text::before(first, self.pairs()[i].0));
                }
            }
        }
        None
    }

    /// Gives `key` the value `value`, whether or not it had one.
    pub fn insert(&mut self, key: &str, value: &str)
        ensures
            final(self)@ == old(self)@.insert(key@, value@),
    {
        proof {
            use_type_invariant(&*self);
        }
        let at: usize = self.find(key);
        let mut entries: Vec<(String, String)> = Vec::new();
        std::mem::swap(&mut entries, &mut self.entries);
        let ghost was = old(self).pairs();
        let ghost pair = (key@, value@);
        if at < entries.len() && text::same_text(entries[at].0.as_str(), key) {
            entries[at] = (key.to_owned(), value.to_owned());
            let ghost now = Seq::new(entries@.len(), |i: int| (entries@[i].0@, entries@[i].1@));
            proof {
                assert(now =~= was.update(at as int, pair));
                assert(was[at as int].0 == key@);
                assert(keys_ascending(now)) by {
                    assert forall|i: int, j: int| 0 <= i < j < now.len() implies text::before(
                        #[trigger] now[i].0,
                        #[trigger] now[j].0,
                    ) by {
                        assert(text::before(was[i].0, was[j].0));
                    }
                }
                lemma_map_with(was, now, at as int, pair);
            }
            self.entries = entries;
            assert(self.pairs() =~= now);
        } else {
            proof {
                if at < was.len() {
                    text::lemma_before_total(was[at as int].0, key@);
                }
            }
            entries.insert(at, (key.to_owned(), value.to_owned()));
            let ghost now = Seq::new(entries@.len(), |i: int| (entries@[i].0@, entries@[i].1@));
            proof {
                assert(now =~= was.insert(at as int, pair));
                assert(keys_ascending(now)) by {
                    assert forall|i: int, j: int| 0 <= i < j < now.len() implies text::before(
                        #[trigger] now[i].0,
                        #[trigger] now[j].0,
                    ) by {
                        let a = if i < at { i } else { i - 1 };
                        let b = if j < at { j } else { j - 1 };
                        if i != at {
                            assert(now[i] == was[a]);
                        }
                        if j != at {
                            assert(now[j] == was[b]);
                        }
                        if i == at {
                            text::lemma_before_total(was[b].0, key@);
                            if b > at {
                                assert(text::before(was[at as int].0, was[b].0));
                                text::lemma_before_total(was[at as int].0, key@);
                                text::lemma_before_transitive(
                                    key@,
                                    was[at as int].0,
                                    was[b].0,
                                );
                            }
                        } else if j != at {
                            assert(text::before(was[a].0, was[b].0));
                        }
                    }
                }
                lemma_map_grown(was, now, at as int, pair);
            }
            self.entries = entries;
            assert(self.pairs() =~= now);
        }
    }

    /// The same names and values again.
    pub fn duplicate(&self) -> (copy: Properties)
        ensures
            copy@ == self@,
            copy.pairs() == self.pairs(),
    {
        proof {
            use_type_invariant(self);
        }
        let mut entries: Vec<(String, String)> = Vec::new();
        let mut at: usize = 0;
        while at < self.entries.len()
            invariant
                at <= self.entries@.len(),
                entries@.len() == at,
                forall|i: int|
                    0 <= i < at ==> (#[trigger] entries@[i]).0@ == self.entries@[i].0@
                        && entries@[i].1@ == self.entries@[i].1@,
            decreases self.entries@.len() - at,
        {
            let key: String = self.entries[at].0.clone();
            let value: String = self.entries[at].1.clone();
            entries.push((key, value));
            at = at + 1;
        }
        proof {
            let now = Seq::new(entries@.len(), |i: int| (entries@[i].0@, entries@[i].1@));
            assert(now =~= self.pairs());
        }
        let copy = Properties { entries };
        assert(copy.pairs() =~= self.pairs());
        copy
    }

    /// Whether both have the same names and values.
    pub fn same(&self, other: &Properties) -> (equal: bool)
        ensures
            equal == (self@ == other@),
    {
        proof {
            use_type_invariant(self);
            use_type_invariant(other);
            if self@ == other@ {
                lemma_pairs_unique(self.pairs(), other.pairs());
            }
        }
        if self.entries.len() != other.entries.len() {
            return false;
        }
        let mut at: usize = 0;
        while at < self.entries.len()
            invariant
                at <= self.entries@.len() == other.entries@.len(),
                self@ == other@ ==> self.pairs() == other.pairs(),
                forall|i: int| 0 <= i < at ==> #[trigger] self.pairs()[i] == other.pairs()[i],
            decreases self.entries@.len() - at,
        {
            let same_key: bool = text::same_text(
                self.entries[at].0.as_str(),
                other.entries[at].0.as_str(),
            );
            let same_value: bool = text::same_text(
                self.entries[at].1.as_str(),
                other.entries[at].1.as_str(),
            );
            assert(self.pairs()[at as int] == (
                self.entries@[at as int].0@,
                self.entries@[at as int].1@,
            ));
            assert(other.pairs()[at as int] == (
                other.entries@[at as int].0@,
                other.entries@[at as int].1@,
            ));
            if !same_key || !same_value {
                return false;
            }
            at = at + 1;
        }
        assert(self.pairs() =~= other.pairs());
        true
    }
}

impl Clone for Properties {
    fn clone(&self) -> (copy: Properties)
        ensures
            copy@ == self@,
    {
        self.duplicate()
    }
}

proof fn lemma_map_with(
    was: Seq<(Seq<char>, Seq<char>)>,
    now: Seq<(Seq<char>, Seq<char>)>,
    at: int,
    pair: (Seq<char>, Seq<char>),
)
    requires
        keys_ascending(was),
        keys_ascending(now),
        0 <= at < was.len(),
        was[at].0 == pair.0,
        now == was.update(at, pair),
    ensures
        as_map(now) == as_map(was).insert(pair.0, pair.1),
{
    lemma_place(now, at);
    assert forall|key: Seq<char>| has_key(now, key) <==> has_key(was, key) || key == pair.0 by {
        if has_key(now, key) {
            let i = place_of(now, key);
            assert(was[i].0 == key);
        }
        if has_key(was, key) {
            let i = place_of(was, key);
            assert(now[i].0 == key);
        }
    }
    assert forall|key: Seq<char>| has_key(now, key) implies #[trigger] as_map(now)[key] == as_map(
        was,
    ).insert(pair.0, pair.1)[key] by {
        let i = place_of(now, key);
        assert(now[i].0 == key);
        assert(was[i].0 == key);
        lemma_place(was, i);
        lemma_place(now, i);
    }
    assert(as_map(now) =~= as_map(was).insert(pair.0, pair.1));
}

proof fn lemma_map_grown(
    was: Seq<(Seq<char>, Seq<char>)>,
    now: Seq<(Seq<char>, Seq<char>)>,
    at: int,
    pair: (Seq<char>, Seq<char>),
)
    requires
        keys_ascending(was),
        keys_ascending(now),
        0 <= at <= was.len(),
        now == was.insert(at, pair),
    ensures
        as_map(now) == as_map(was).insert(pair.0, pair.1),
{
    lemma_place(now, at);
    assert forall|key: Seq<char>| has_key(now, key) <==> has_key(was, key) || key == pair.0 by {
        if has_key(now, key) {
            let i = place_of(now, key);
            if i != at {
                let k = if i < at { i } else { i - 1 };
                assert(was[k].0 == key);
            }
        }
        if has_key(was, key) {
            let k = place_of(was, key);
            let i = if k < at { k } else { k + 1 };
            assert(now[i].0 == key);
        }
    }
    assert forall|key: Seq<char>| has_key(now, key) implies #[trigger] as_map(now)[key] == as_map(
        was,
    ).insert(pair.0, pair.1)[key] by {
        let i = place_of(now, key);
        assert(now[i].0 == key);
        lemma_place(now, i);
        if i != at {
            let k = if i < at { i } else { i - 1 };
            assert(was[k] == now[i]);
            lemma_place(was, k);
        }
    }
    assert(as_map(now) =~= as_map(was).insert(pair.0, pair.1));
}

/// One more pair makes a map with one more name.
pub proof fn lemma_next_pair(pairs: Seq<(Seq<char>, Seq<char>)>, at: int)
    requires
        keys_ascending(pairs),
        0 <= at < pairs.len(),
    ensures
        as_map(pairs.take(at + 1)) == as_map(pairs.take(at)).insert(pairs[at].0, pairs[at].1),
        !as_map(pairs.take(at)).dom().contains(pairs[at].0),
{
    let was = pairs.take(at);
    let now = pairs.take(at + 1);
    assert(keys_ascending(was) && keys_ascending(now)) by {
        assert forall|i: int, j: int| 0 <= i < j < now.len() implies text::before(
            #[trigger] now[i].0,
            #[trigger] now[j].0,
        ) by {
            assert(text::before(pairs[i].0, pairs[j].0));
        }
        assert forall|i: int, j: int| 0 <= i < j < was.len() implies text::before(
            #[trigger] was[i].0,
            #[trigger] was[j].0,
        ) by {
            assert(text::before(pairs[i].0, pairs[j].0));
        }
    }
    assert(now =~= was.insert(at, pairs[at]));
    lemma_map_grown(was, now, at, pairs[at]);
    if has_key(was, pairs[at].0) {
        let i = place_of(was, pairs[at].0);
        assert(text::before(pairs[i].0, pairs[at].0));
        text::lemma_before_total(pairs[i].0, pairs[at].0);
    }
}

} // verus!
