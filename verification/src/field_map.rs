//! Named values: a map whose keys are strings.

use vstd::prelude::*;

use crate::text::same_text;

verus! {

/// A value that can be copied without loss.
pub trait Duplicate: Sized + DeepView {
    /// A copy of the value.
    fn duplicate(&self) -> (r: Self)
        ensures
            r.deep_view() == self.deep_view(),
    ;
}

impl Duplicate for String {
    fn duplicate(&self) -> (r: Self) {
        self.clone()
    }
}

impl Duplicate for Vec<String> {
    fn duplicate(&self) -> (r: Self) {
        let mut r: Vec<String> = Vec::new();
        let mut i: usize = 0;
        while i < self.len()
            invariant
                i <= self@.len(),
                r@ == self@.take(i as int),
            decreases self.len() - i,
        {
            let s = self[i].clone();
            r.push(s);
            i = i + 1;
            proof {
                assert(self@.take(i as int) =~= self@.take(i - 1).push(self@[i - 1]));
            }
        }
        proof {
            assert(self@.take(self@.len() as int) =~= self@);
        }
        r
    }
}

/// A map from names to values. Every name occurs once.
#[derive(Debug)]
pub struct FieldMap<V> {
    entries: Vec<(String, V)>,
}

/// No name occurs twice.
pub open spec fn distinct_names<V>(es: Seq<(String, V)>) -> bool {
    forall|i: int, j: int| 0 <= i < j < es.len() ==> (#[trigger] es[i]).0@ != (#[trigger] es[j]).0@
}

/// The map that a list of named values stands for; later entries prevail.
pub open spec fn map_of<V: DeepView>(es: Seq<(String, V)>) -> Map<Seq<char>, V::V>
    decreases es.len(),
{
    if es.len() == 0 {
        Map::empty()
    } else {
        map_of(es.drop_last()).insert(es.last().0@, es.last().1.deep_view())
    }
}

/// What a list of named values holds, entry by entry.
pub proof fn lemma_map_of<V: DeepView>(es: Seq<(String, V)>)
    requires
        distinct_names(es),
    ensures
        forall|i: int|
            0 <= i < es.len() ==> map_of(es).contains_key((#[trigger] es[i]).0@) && map_of(
                es,
            )[es[i].0@] == es[i].1.deep_view(),
        forall|k: Seq<char>| #[trigger]
            map_of(es).contains_key(k) ==> exists|i: int|
                0 <= i < es.len() && (#[trigger] es[i]).0@ == k,
        map_of(es).dom().finite(),
        map_of(es).dom().len() == es.len(),
    decreases es.len(),
{
    if es.len() > 0 {
        let front = es.drop_last();
        let last = es.len() - 1;
        assert(distinct_names(front)) by {
            assert forall|i: int, j: int| 0 <= i < j < front.len() implies (#[trigger] front[i]).0@
                != (#[trigger] front[j]).0@ by {
                assert(es[i].0@ != es[j].0@);
            }
        }
        lemma_map_of(front);
        assert forall|i: int| 0 <= i < es.len() implies map_of(es).contains_key(
            (#[trigger] es[i]).0@,
        ) && map_of(es)[es[i].0@] == es[i].1.deep_view() by {
            if i < last {
                assert(front[i] == es[i]);
                assert(es[i].0@ != es[last].0@);
            }
        }
        assert forall|k: Seq<char>| #[trigger] map_of(es).contains_key(k) implies exists|i: int|
            0 <= i < es.len() && (#[trigger] es[i]).0@ == k by {
            if k == es.last().0@ {
                assert(es[last].0@ == k);
            } else {
                assert(map_of(front).contains_key(k));
                let i = choose|i: int| 0 <= i < front.len() && (#[trigger] front[i]).0@ == k;
                assert(es[i].0@ == k);
            }
        }
        if map_of(front).contains_key(es.last().0@) {
            let i = choose|i: int|
                0 <= i < front.len() && (#[trigger] front[i]).0@ == es.last().0@;
            assert(es[i].0@ != es[last].0@);
        }
    }
}

proof fn lemma_finite_names<V: DeepView>(es: Seq<(String, V)>)
    ensures
        map_of(es).dom().finite(),
    decreases es.len(),
{
    if es.len() > 0 {
        lemma_finite_names(es.drop_last());
    }
}

impl<V> FieldMap<V> {
    #[verifier::type_invariant]
    spec fn well_formed(self) -> bool {
        distinct_names(self.entries@)
    }
}

impl<V: DeepView> View for FieldMap<V> {
    type V = Map<Seq<char>, V::V>;

    closed spec fn view(&self) -> Map<Seq<char>, V::V> {
        map_of(self.entries@)
    }
}

impl<V: DeepView> FieldMap<V> {
    /// A map has finitely many names.
    pub proof fn lemma_finite(&self)
        ensures
            self@.dom().finite(),
    {
        lemma_finite_names(self.entries@);
    }

    /// An empty map.
    pub fn new() -> (m: Self)
        ensures
            m@ == Map::<Seq<char>, V::V>::empty(),
    {
        FieldMap { entries: Vec::new() }
    }

    /// The position of a name, or the number of names where it is missing.
    fn position(&self, key: &str) -> (i: usize)
        ensures
            i <= self.entries@.len(),
            i < self.entries@.len() ==> self.entries@[i as int].0@ == key@,
            i == self.entries@.len() ==> forall|j: int|
                0 <= j < self.entries@.len() ==> (#[trigger] self.entries@[j]).0@ != key@,
    {
        let mut i: usize = 0;
        while i < self.entries.len()
            invariant
                i <= self.entries@.len(),
                forall|j: int| 0 <= j < i ==> (#[trigger] self.entries@[j]).0@ != key@,
            decreases self.entries.len() - i,
        {
            if same_text(self.entries[i].0.as_str(), key) {
                return i;
            }
            i = i + 1;
        }
        i
    }

    /// The value of a name.
    pub fn get(&self, key: &str) -> (r: Option<&V>)
        ensures
            match r {
                Some(v) => self@.contains_key(key@) && v.deep_view() == self@[key@],
                None => !self@.contains_key(key@),
            },
    {
        proof {
            use_type_invariant(self);
            lemma_map_of(self.entries@);
        }
        let i = self.position(key);
        if i < self.entries.len() {
            proof {
                assert(map_of(self.entries@).contains_key(self.entries@[i as int].0@));
            }
            Some(&self.entries[i].1)
        } else {
            None
        }
    }

    /// Whether there is a value of that name.
    pub fn contains_key(&self, key: &str) -> (b: bool)
        ensures
            b == self@.contains_key(key@),
    {
        self.get(key).is_some()
    }

    /// The number of names.
    pub fn len(&self) -> (n: usize)
        ensures
            n == self@.dom().len(),
            self@.dom().finite(),
    {
        proof {
            use_type_invariant(self);
            lemma_map_of(self.entries@);
        }
        self.entries.len()
    }

    /// Sets the value of a name, in place of the one it had.
    pub fn insert(&mut self, key: String, value: V)
        ensures
            final(self)@ == old(self)@.insert(key@, value.deep_view()),
    {
        proof {
            use_type_invariant(&*self);
            lemma_map_of(self.entries@);
        }
        let i = self.position(key.as_str());
        let mut es: Vec<(String, V)> = Vec::new();
        std::mem::swap(&mut es, &mut self.entries);
        let ghost before = es@;
        let ghost name = key@;
        let ghost seen = value.deep_view();
        if i < es.len() {
            es.set(i, (key, value));
        } else {
            es.push((key, value));
        }
        proof {
            lemma_inserted(before, es@, i as int, name, seen);
        }
        self.entries = es;
    }

    /// Removes a name and hands back its value.
    pub fn remove(&mut self, key: &str) -> (r: Option<V>)
        ensures
            final(self)@ == old(self)@.remove(key@),
            match r {
                Some(v) => old(self)@.contains_key(key@) && v.deep_view() == old(self)@[key@],
                None => !old(self)@.contains_key(key@),
            },
    {
        proof {
            use_type_invariant(&*self);
            lemma_map_of(self.entries@);
        }
        let i = self.position(key);
        if i < self.entries.len() {
            let mut es: Vec<(String, V)> = Vec::new();
            std::mem::swap(&mut es, &mut self.entries);
            let ghost before = es@;
            proof {
                assert(map_of(before).contains_key(before[i as int].0@));
            }
            let (_, value) = es.remove(i);
            proof {
                lemma_removed(before, es@, i as int);
            }
            self.entries = es;
            Some(value)
        } else {
            proof {
                assert(self@.remove(key@) =~= self@);
            }
            None
        }
    }

    /// The named values, in the order in which the names came.
    pub fn entries(&self) -> (r: &Vec<(String, V)>)
        ensures
            distinct_names(r@),
            self@ == map_of(r@),
    {
        proof {
            use_type_invariant(self);
        }
        &self.entries
    }
}

impl<V: DeepView> FieldMap<V> {
    /// The names, in the order in which they came.
    pub fn names(&self) -> (r: Vec<String>)
        ensures
            r.deep_view().no_duplicates(),
            r.deep_view().to_set() == self@.dom(),
    {
        let mut r: Vec<String> = Vec::new();
        let mut i: usize = 0;
        while i < self.entries.len()
            invariant
                i <= self.entries@.len(),
                r@.len() == i,
                forall|j: int| 0 <= j < i ==> (#[trigger] r@[j])@ == self.entries@[j].0@,
            decreases self.entries.len() - i,
        {
            r.push(self.entries[i].0.clone());
            i = i + 1;
        }
        proof {
            use_type_invariant(self);
            lemma_map_of(self.entries@);
            let names = r.deep_view();
            assert forall|x: int, y: int|
                0 <= x < names.len() && 0 <= y < names.len() && x != y implies names[x]
                != names[y] by {
                if x < y {
                    assert(self.entries@[x].0@ != self.entries@[y].0@);
                } else {
                    assert(self.entries@[y].0@ != self.entries@[x].0@);
                }
            }
            assert forall|k: Seq<char>| #[trigger] names.to_set().contains(k)
                == self@.dom().contains(k) by {
                if names.contains(k) {
                    let j = choose|j: int| 0 <= j < names.len() && names[j] == k;
                    assert(map_of(self.entries@).contains_key(self.entries@[j].0@));
                }
                if self@.contains_key(k) {
                    let j = choose|j: int|
                        0 <= j < self.entries@.len() && (#[trigger] self.entries@[j]).0@ == k;
                    assert(names[j] == k);
                }
            }
            assert(names.to_set() =~= self@.dom());
        }
        r
    }
}

proof fn lemma_inserted<V: DeepView>(
    before: Seq<(String, V)>,
    after: Seq<(String, V)>,
    i: int,
    name: Seq<char>,
    seen: V::V,
)
    requires
        distinct_names(before),
        0 <= i <= before.len(),
        i < before.len() ==> before[i].0@ == name && after.len() == before.len(),
        i == before.len() ==> after.len() == before.len() + 1 && forall|j: int|
            0 <= j < before.len() ==> (#[trigger] before[j]).0@ != name,
        after[i].0@ == name,
        after[i].1.deep_view() == seen,
        forall|j: int|
            0 <= j < before.len() && j != i ==> #[trigger] after[j] == #[trigger] before[j],
    ensures
        distinct_names(after),
        map_of(after) == map_of(before).insert(name, seen),
{
    assert forall|x: int, y: int| 0 <= x < y < after.len() implies (#[trigger] after[x]).0@ != (
    #[trigger] after[y]).0@ by {
        if x != i {
            assert(after[x] == before[x]);
        }
        if y != i {
            assert(after[y] == before[y]);
        }
        if x < before.len() && y < before.len() {
            assert(before[x].0@ != before[y].0@);
        }
    }
    lemma_map_of(before);
    lemma_map_of(after);
    let m = map_of(before).insert(name, seen);
    assert forall|k: Seq<char>| #[trigger] map_of(after).contains_key(k) == m.contains_key(k) by {
        if map_of(after).contains_key(k) {
            let j = choose|j: int| 0 <= j < after.len() && (#[trigger] after[j]).0@ == k;
            if j != i {
                assert(after[j] == before[j]);
                assert(map_of(before).contains_key(before[j].0@));
            }
        }
        if m.contains_key(k) && k != name {
            let j = choose|j: int| 0 <= j < before.len() && (#[trigger] before[j]).0@ == k;
            assert(after[j] == before[j]);
            assert(map_of(after).contains_key(after[j].0@));
        }
        if k == name {
            assert(map_of(after).contains_key(after[i].0@));
        }
    }
    assert forall|k: Seq<char>| #[trigger] map_of(after).contains_key(k) implies map_of(after)[k]
        == m[k] by {
        let j = choose|j: int| 0 <= j < after.len() && (#[trigger] after[j]).0@ == k;
        if j != i {
            assert(after[j] == before[j]);
            assert(map_of(before).contains_key(before[j].0@));
            assert(after[j].0@ != after[i].0@) by {
                if j < i {
                    assert(after[j].0@ != after[i].0@);
                } else {
                    assert(after[i].0@ != after[j].0@);
                }
            }
        }
    }
    assert(map_of(after) =~= m);
}

proof fn lemma_removed<V: DeepView>(before: Seq<(String, V)>, after: Seq<(String, V)>, i: int)
    requires
        distinct_names(before),
        0 <= i < before.len(),
        after == before.remove(i),
    ensures
        distinct_names(after),
        map_of(after) == map_of(before).remove(before[i].0@),
{
    assert forall|x: int| 0 <= x < after.len() implies #[trigger] after[x] == before[if x < i {
        x
    } else {
        x + 1
    }] by {}
    assert forall|x: int, y: int| 0 <= x < y < after.len() implies (#[trigger] after[x]).0@ != (
    #[trigger] after[y]).0@ by {
        let a = if x < i {
            x
        } else {
            x + 1
        };
        let b = if y < i {
            y
        } else {
            y + 1
        };
        assert(before[a].0@ != before[b].0@);
    }
    lemma_map_of(before);
    lemma_map_of(after);
    let name = before[i].0@;
    let m = map_of(before).remove(name);
    assert forall|k: Seq<char>| #[trigger] map_of(after).contains_key(k) == m.contains_key(k) by {
        if map_of(after).contains_key(k) {
            let j = choose|j: int| 0 <= j < after.len() && (#[trigger] after[j]).0@ == k;
            let a = if j < i {
                j
            } else {
                j + 1
            };
            assert(map_of(before).contains_key(before[a].0@));
            if a < i {
                assert(before[a].0@ != before[i].0@);
            } else {
                assert(before[i].0@ != before[a].0@);
            }
        }
        if m.contains_key(k) {
            let j = choose|j: int| 0 <= j < before.len() && (#[trigger] before[j]).0@ == k;
            let a = if j < i {
                j
            } else {
                j - 1
            };
            assert(after[a] == before[j]);
            assert(map_of(after).contains_key(after[a].0@));
        }
    }
    assert forall|k: Seq<char>| #[trigger] map_of(after).contains_key(k) implies map_of(after)[k]
        == m[k] by {
        let j = choose|j: int| 0 <= j < after.len() && (#[trigger] after[j]).0@ == k;
        let a = if j < i {
            j
        } else {
            j + 1
        };
        assert(map_of(before).contains_key(before[a].0@));
        if a < i {
            assert(before[a].0@ != before[i].0@);
        } else {
            assert(before[i].0@ != before[a].0@);
        }
    }
    assert(map_of(after) =~= m);
}

impl<V: Duplicate> Clone for FieldMap<V> {
    fn clone(&self) -> (r: Self)
        ensures
            r@ == self@,
    {
        let mut es: Vec<(String, V)> = Vec::new();
        let mut i: usize = 0;
        while i < self.entries.len()
            invariant
                i <= self.entries@.len(),
                es@.len() == i,
                forall|j: int|
                    0 <= j < i ==> (#[trigger] es@[j]).0@ == self.entries@[j].0@
                        && es@[j].1.deep_view() == self.entries@[j].1.deep_view(),
                map_of(es@) == map_of(self.entries@.take(i as int)),
            decreases self.entries.len() - i,
        {
            let k = self.entries[i].0.clone();
            let v = self.entries[i].1.duplicate();
            let ghost before = es@;
            es.push((k, v));
            proof {
                assert(es@.drop_last() =~= before);
                assert(self.entries@.take(i + 1).drop_last() =~= self.entries@.take(i as int));
            }
            i = i + 1;
        }
        proof {
            use_type_invariant(self);
            assert(self.entries@.take(i as int) =~= self.entries@);
            assert forall|x: int, y: int| 0 <= x < y < es@.len() implies (#[trigger] es@[x]).0@ != (
            #[trigger] es@[y]).0@ by {
                assert(self.entries@[x].0@ != self.entries@[y].0@);
            }
        }
        FieldMap { entries: es }
    }
}

} // verus!
