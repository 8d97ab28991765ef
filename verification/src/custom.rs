//! Named extension values carried by a candle.

use crate::text::str_eq;
use vstd::prelude::*;

verus! {

/// A small map from metric name to value, kept as a list with one entry per
/// name. The order of the entries carries no meaning: two maps are equal when
/// they give the same names the same values.
#[derive(Debug, Eq)]
pub struct CustomMetrics {
    entries: Vec<(String, i128)>,
}

/// The map a list of entries stands for; a later entry would override an
/// earlier one of the same name.
spec fn as_map(entries: Seq<(String, i128)>) -> Map<Seq<char>, int>
    decreases entries.len(),
{
    if entries.len() == 0 {
        Map::empty()
    } else {
        as_map(entries.drop_last()).insert(entries.last().0@, entries.last().1 as int)
    }
}

/// No entry from `from` on is named `name`.
spec fn absent_from(entries: Seq<(String, i128)>, from: int, name: Seq<char>) -> bool {
    forall|j: int| from <= j < entries.len() ==> (#[trigger] entries[j]).0@ != name
}

proof fn lemma_absent(entries: Seq<(String, i128)>, name: Seq<char>)
    requires
        absent_from(entries, 0, name),
    ensures
        !as_map(entries).contains_key(name),
    decreases entries.len(),
{
    if entries.len() > 0 {
        let rest = entries.drop_last();
        assert(entries.last() == entries[entries.len() - 1]);
        assert forall|j: int| 0 <= j < rest.len() implies (#[trigger] rest[j]).0@ != name by {
            assert(rest[j] == entries[j]);
        }
        lemma_absent(rest, name);
    }
}

/// A name is in the map exactly if some entry carries it.
proof fn lemma_named(entries: Seq<(String, i128)>, name: Seq<char>)
    ensures
        as_map(entries).contains_key(name) <==> exists|i: int|
            0 <= i < entries.len() && (#[trigger] entries[i]).0@ == name,
    decreases entries.len(),
{
    if entries.len() > 0 {
        let rest = entries.drop_last();
        lemma_named(rest, name);
        assert(entries.last() == entries[entries.len() - 1]);
        if as_map(entries).contains_key(name) {
            if entries.last().0@ != name {
                let i = choose|i: int| 0 <= i < rest.len() && (#[trigger] rest[i]).0@ == name;
                assert(entries[i] == rest[i]);
            }
        }
        if exists|i: int| 0 <= i < entries.len() && (#[trigger] entries[i]).0@ == name {
            let i = choose|i: int| 0 <= i < entries.len() && (#[trigger] entries[i]).0@ == name;
            if i < rest.len() {
                assert(rest[i] == entries[i]);
            }
        }
    }
}

proof fn lemma_lookup(entries: Seq<(String, i128)>, i: int)
    requires
        0 <= i < entries.len(),
        absent_from(entries, i + 1, entries[i].0@),
    ensures
        as_map(entries).contains_key(entries[i].0@),
        as_map(entries)[entries[i].0@] == entries[i].1,
    decreases entries.len(),
{
    let last = entries.len() - 1;
    if i < last {
        let rest = entries.drop_last();
        assert(entries.last() == entries[last]);
        assert(rest[i] == entries[i]);
        assert forall|j: int| i + 1 <= j < rest.len() implies (#[trigger] rest[j]).0@
            != entries[i].0@ by {
            assert(rest[j] == entries[j]);
        }
        lemma_lookup(rest, i);
    }
}

proof fn lemma_replace(entries: Seq<(String, i128)>, i: int, entry: (String, i128))
    requires
        0 <= i < entries.len(),
        entry.0@ == entries[i].0@,
        absent_from(entries, i + 1, entries[i].0@),
    ensures
        as_map(entries.update(i, entry)) == as_map(entries).insert(entry.0@, entry.1 as int),
    decreases entries.len(),
{
    let last = entries.len() - 1;
    let now = entries.update(i, entry);
    if i == last {
        assert(now.drop_last() =~= entries.drop_last());
        assert(as_map(now) =~= as_map(entries).insert(entry.0@, entry.1 as int));
    } else {
        let rest = entries.drop_last();
        assert(entries.last() == entries[last]);
        assert(rest[i] == entries[i]);
        assert forall|j: int| i + 1 <= j < rest.len() implies (#[trigger] rest[j]).0@
            != entries[i].0@ by {
            assert(rest[j] == entries[j]);
        }
        lemma_replace(rest, i, entry);
        assert(now.drop_last() =~= rest.update(i, entry));
        assert(now.last() == entries.last());
        assert(as_map(now) =~= as_map(entries).insert(entry.0@, entry.1 as int));
    }
}

impl View for CustomMetrics {
    type V = Map<Seq<char>, int>;

    closed spec fn view(&self) -> Map<Seq<char>, int> {
        as_map(self.entries@)
    }
}

impl CustomMetrics {
    pub fn new() -> (empty: Self)
        ensures
            empty@ == Map::<Seq<char>, int>::empty(),
    {
        CustomMetrics { entries: Vec::new() }
    }

    /// Position of the entry named `name`, if there is one.
    fn find(&self, name: &str) -> (at: Option<usize>)
        ensures
            match at {
                Some(i) => {
                    &&& i < self.entries.len()
                    &&& self.entries[i as int].0@ == name@
                    &&& absent_from(self.entries@, i + 1, name@)
                },
                None => absent_from(self.entries@, 0, name@),
            },
    {
        let mut i: usize = self.entries.len();
        while i > 0
            invariant
                i <= self.entries.len(),
                absent_from(self.entries@, i as int, name@),
            decreases i,
        {
            i -= 1;
            if str_eq(self.entries[i].0.as_str(), name) {
                return Some(i);
            }
        }
        None
    }

    pub fn get(&self, name: &str) -> (value: Option<i128>)
        ensures
            match value {
                Some(v) => self@.contains_key(name@) && self@[name@] == v,
                None => !self@.contains_key(name@),
            },
    {
        match self.find(name) {
            Some(i) => {
                proof {
                    lemma_lookup(self.entries@, i as int);
                }
                Some(self.entries[i].1)
            },
            None => {
                proof {
                    lemma_absent(self.entries@, name@);
                }
                None
            },
        }
    }

    pub fn contains_key(&self, name: &str) -> (found: bool)
        ensures
            found == self@.contains_key(name@),
    {
        self.get(name).is_some()
    }

    pub fn is_empty(&self) -> (empty: bool)
        ensures
            empty == (self@ == Map::<Seq<char>, int>::empty()),
    {
        proof {
            if self.entries.len() > 0 {
                assert(self@.contains_key(self.entries@.last().0@));
            }
        }
        self.entries.len() == 0
    }

    /// The names that carry a value, each once.
    pub fn names(&self) -> (names: Vec<String>)
        ensures
            forall|i: int| 0 <= i < names@.len() ==> self@.contains_key((#[trigger] names@[i])@),
            forall|name: Seq<char>|
                self@.contains_key(name) ==> exists|i: int|
                    0 <= i < names@.len() && (#[trigger] names@[i])@ == name,
            forall|i: int, j: int|
                0 <= i < j < names@.len() ==> (#[trigger] names@[i])@ != (#[trigger] names@[j])@,
    {
        let mut names: Vec<String> = Vec::new();
        let mut i: usize = 0;
        while i < self.entries.len()
            invariant
                i <= self.entries.len(),
                forall|k: int|
                    #![trigger names@[k]]
                    0 <= k < names@.len() ==> exists|e: int|
                        0 <= e < i && (#[trigger] self.entries@[e]).0@ == names@[k]@,
                forall|e: int|
                    #![trigger self.entries@[e]]
                    0 <= e < i ==> exists|k: int|
                        0 <= k < names@.len() && (#[trigger] names@[k])@ == self.entries@[e].0@,
                forall|a: int, b: int|
                    0 <= a < b < names@.len() ==> (#[trigger] names@[a])@ != (
                    #[trigger] names@[b])@,
            decreases self.entries.len() - i,
        {
            let ghost before = names@;
            let mut listed: bool = false;
            let mut k: usize = 0;
            while k < names.len() && !listed
                invariant
                    k <= names@.len(),
                    i < self.entries.len(),
                    names@ == before,
                    listed ==> exists|h: int|
                        0 <= h < names@.len() && (#[trigger] names@[h])@ == self.entries@[i as int].0@,
                    !listed ==> forall|h: int|
                        0 <= h < k ==> (#[trigger] names@[h])@ != self.entries@[i as int].0@,
                decreases names@.len() - k + (if listed {
                    0int
                } else {
                    1int
                }),
            {
                if str_eq(names[k].as_str(), self.entries[i].0.as_str()) {
                    listed = true;
                } else {
                    k += 1;
                }
            }
            if !listed {
                names.push(self.entries[i].0.clone());
                proof {
                    let last = before.len() as int;
                    assert(names@[last]@ == self.entries@[i as int].0@);
                    assert forall|h: int|
                        #![trigger names@[h]]
                        0 <= h < names@.len() implies exists|e: int|
                        0 <= e < i + 1 && (#[trigger] self.entries@[e]).0@ == names@[h]@ by {
                        if h < last {
                            assert(names@[h] == before[h]);
                            let e = choose|e: int|
                                0 <= e < i && (#[trigger] self.entries@[e]).0@ == before[h]@;
                            assert(self.entries@[e].0@ == names@[h]@);
                        } else {
                            assert(self.entries@[i as int].0@ == names@[h]@);
                        }
                    }
                    assert forall|e: int|
                        #![trigger self.entries@[e]]
                        0 <= e < i + 1 implies exists|h: int|
                        0 <= h < names@.len() && (#[trigger] names@[h])@ == self.entries@[e].0@ by {
                        if e < i {
                            let h = choose|h: int|
                                0 <= h < before.len() && (#[trigger] before[h])@
                                    == self.entries@[e].0@;
                            assert(names@[h] == before[h]);
                        } else {
                            assert(names@[last]@ == self.entries@[e].0@);
                        }
                    }
                    assert forall|a: int, b: int| 0 <= a < b < names@.len() implies (
                    #[trigger] names@[a])@ != (#[trigger] names@[b])@ by {
                        assert(names@[a] == before[a]);
                        if b < last {
                            assert(names@[b] == before[b]);
                        }
                    }
                }
            } else {
                proof {
                    assert forall|e: int|
                        #![trigger self.entries@[e]]
                        0 <= e < i + 1 implies exists|h: int|
                        0 <= h < names@.len() && (#[trigger] names@[h])@ == self.entries@[e].0@ by {
                        if e < i {
                        } else {
                            let h = choose|h: int|
                                0 <= h < names@.len() && (#[trigger] names@[h])@
                                    == self.entries@[i as int].0@;
                            assert(names@[h]@ == self.entries@[e].0@);
                        }
                    }
                    assert forall|h: int|
                        #![trigger names@[h]]
                        0 <= h < names@.len() implies exists|e: int|
                        0 <= e < i + 1 && (#[trigger] self.entries@[e]).0@ == names@[h]@ by {
                        let e = choose|e: int|
                            0 <= e < i && (#[trigger] self.entries@[e]).0@ == names@[h]@;
                        assert(self.entries@[e].0@ == names@[h]@);
                    }
                }
            }
            i += 1;
        }
        proof {
            assert forall|k: int| 0 <= k < names@.len() implies self@.contains_key(
                (#[trigger] names@[k])@,
            ) by {
                lemma_named(self.entries@, names@[k]@);
                let e = choose|e: int|
                    0 <= e < i && (#[trigger] self.entries@[e]).0@ == names@[k]@;
                assert(self.entries@[e].0@ == names@[k]@);
            }
            assert forall|name: Seq<char>| self@.contains_key(name) implies exists|h: int|
                0 <= h < names@.len() && (#[trigger] names@[h])@ == name by {
                lemma_named(self.entries@, name);
                let e = choose|e: int|
                    0 <= e < self.entries@.len() && (#[trigger] self.entries@[e]).0@ == name;
                let h = choose|h: int|
                    0 <= h < names@.len() && (#[trigger] names@[h])@ == self.entries@[e].0@;
                assert(names@[h]@ == name);
            }
        }
        names
    }

    /// Writes `value` under `name` and returns what was there before.
    pub fn insert(&mut self, name: String, value: i128) -> (before: Option<i128>)
        ensures
            final(self)@ == old(self)@.insert(name@, value as int),
            match before {
                Some(v) => old(self)@.contains_key(name@) && old(self)@[name@] == v,
                None => !old(self)@.contains_key(name@),
            },
    {
        let ghost prior = self.entries@;
        match self.find(name.as_str()) {
            Some(i) => {
                let before: i128 = self.entries[i].1;
                proof {
                    lemma_lookup(prior, i as int);
                    lemma_replace(prior, i as int, (name, value));
                }
                self.entries.set(i, (name, value));
                Some(before)
            },
            None => {
                proof {
                    lemma_absent(prior, name@);
                }
                self.entries.push((name, value));
                assert(self.entries@.drop_last() =~= prior);
                None
            },
        }
    }
}

/// Every name of `a` has in `b` the value it has in `a`.
spec fn covered(a: Map<Seq<char>, int>, b: Map<Seq<char>, int>) -> bool {
    forall|name: Seq<char>| #[trigger]
        a.dom().contains(name) ==> b.dom().contains(name) && b[name] == a[name]
}

impl CustomMetrics {
    /// Whether `other` gives every name of this map the value it has here.
    fn within(&self, other: &Self) -> (yes: bool)
        ensures
            yes == covered(self@, other@),
    {
        let mut i: usize = 0;
        while i < self.entries.len()
            invariant
                i <= self.entries.len(),
                forall|e: int|
                    0 <= e < i ==> {
                        let name = (#[trigger] self.entries@[e]).0@;
                        other@.dom().contains(name) && other@[name] == self@[name]
                    },
            decreases self.entries.len() - i,
        {
            let name = self.entries[i].0.as_str();
            proof {
                lemma_named(self.entries@, name@);
            }
            let here = self.get(name);
            let there = other.get(name);
            assert(self.entries@[i as int].0@ == name@);
            assert(self@.dom().contains(name@));
            match (here, there) {
                (Some(a), Some(b)) => {
                    if a != b {
                        assert(other@[name@] != self@[name@]);
                        return false;
                    }
                },
                _ => {
                    assert(!other@.dom().contains(name@));
                    return false;
                },
            }
            i += 1;
        }
        proof {
            assert forall|name: Seq<char>| #[trigger]
                self@.dom().contains(name) implies other@.dom().contains(name) && other@[name]
                == self@[name] by {
                lemma_named(self.entries@, name);
                let e = choose|e: int|
                    0 <= e < self.entries@.len() && (#[trigger] self.entries@[e]).0@ == name;
                assert(self.entries@[e].0@ == name);
            }
        }
        true
    }
}

impl PartialEq for CustomMetrics {
    fn eq(&self, other: &Self) -> (same: bool) {
        let same = self.within(other) && other.within(self);
        proof {
            if same {
                assert(self@ =~= other@);
            }
        }
        same
    }
}

impl vstd::std_specs::cmp::PartialEqSpecImpl for CustomMetrics {
    open spec fn obeys_eq_spec() -> bool {
        true
    }

    open spec fn eq_spec(&self, other: &Self) -> bool {
        self@ == other@
    }
}

impl Clone for CustomMetrics {
    fn clone(&self) -> (copy: Self)
        ensures
            copy@ == self@,
    {
        let mut entries: Vec<(String, i128)> = Vec::new();
        let mut i: usize = 0;
        while i < self.entries.len()
            invariant
                i <= self.entries.len(),
                entries@ == self.entries@.subrange(0, i as int),
            decreases self.entries.len() - i,
        {
            let name = self.entries[i].0.clone();
            entries.push((name, self.entries[i].1));
            assert(entries@ =~= self.entries@.subrange(0, i as int + 1));
            i += 1;
        }
        assert(entries@ =~= self.entries@);
        CustomMetrics { entries }
    }
}

} // verus!
