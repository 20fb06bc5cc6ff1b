//! Names in ascending order.

use vstd::prelude::*;

use crate::text::chars_of;

verus! {

/// The order of names: by their first character that differs, a prefix before
/// what it begins.
pub open spec fn before(a: Seq<char>, b: Seq<char>) -> bool
    decreases a.len(),
{
    if b.len() == 0 {
        false
    } else if a.len() == 0 {
        true
    } else if a[0] != b[0] {
        a[0] < b[0]
    } else {
        before(a.drop_first(), b.drop_first())
    }
}

/// The names ascend strictly: none occurs twice.
pub open spec fn ascending(names: Seq<Seq<char>>) -> bool {
    forall|i: int, j: int|
        0 <= i < j < names.len() ==> before(#[trigger] names[i], #[trigger] names[j])
}

/// The names of a set, in ascending order.
pub open spec fn listing(set: Set<Seq<char>>) -> Seq<Seq<char>> {
    choose|names: Seq<Seq<char>>| #[trigger] ascending(names) && names.to_set() == set
}

/// Names in ascending order, with one more in its place.
pub open spec fn inserted(names: Seq<Seq<char>>, name: Seq<char>) -> Seq<Seq<char>>
    decreases names.len(),
{
    if names.len() == 0 || !before(name, names.last()) {
        names.push(name)
    } else {
        inserted(names.drop_last(), name).push(names.last())
    }
}

/// Names sorted into ascending order.
pub open spec fn sorted(names: Seq<Seq<char>>) -> Seq<Seq<char>>
    decreases names.len(),
{
    if names.len() == 0 {
        Seq::empty()
    } else {
        inserted(sorted(names.drop_last()), names.last())
    }
}

proof fn lemma_irreflexive(a: Seq<char>)
    ensures
        !before(a, a),
    decreases a.len(),
{
    if a.len() > 0 {
        lemma_irreflexive(a.drop_first());
    }
}

proof fn lemma_transitive(a: Seq<char>, b: Seq<char>, c: Seq<char>)
    requires
        before(a, b),
        before(b, c),
    ensures
        before(a, c),
    decreases a.len(),
{
    if a.len() > 0 && a[0] == b[0] && b[0] == c[0] {
        lemma_transitive(a.drop_first(), b.drop_first(), c.drop_first());
    }
}

proof fn lemma_total(a: Seq<char>, b: Seq<char>)
    ensures
        before(a, b) || before(b, a) || a == b,
    decreases a.len(),
{
    if a.len() == 0 && b.len() == 0 {
        assert(a =~= b);
    } else if a.len() > 0 && b.len() > 0 && a[0] == b[0] {
        lemma_total(a.drop_first(), b.drop_first());
        if a.drop_first() == b.drop_first() {
            assert(a =~= seq![a[0]] + a.drop_first());
            assert(b =~= seq![b[0]] + b.drop_first());
        }
    }
}

/// Whether one name comes before another.
pub fn comes_before(a: &str, b: &str) -> (r: bool)
    ensures
        r == before(a@, b@),
{
    let x = chars_of(a);
    let y = chars_of(b);
    let mut i: usize = 0;
    proof {
        assert(x@.skip(0) =~= x@);
        assert(y@.skip(0) =~= y@);
    }
    while i < x.len() && i < y.len()
        invariant
            i <= x@.len(),
            i <= y@.len(),
            x@ == a@,
            y@ == b@,
            before(x@.skip(i as int), y@.skip(i as int)) == before(a@, b@),
        decreases x.len() - i,
    {
        if x[i] != y[i] {
            return x[i] < y[i];
        }
        proof {
            assert(x@.skip(i as int).drop_first() =~= x@.skip(i + 1));
            assert(y@.skip(i as int).drop_first() =~= y@.skip(i + 1));
        }
        i = i + 1;
    }
    i == x.len() && i < y.len()
}

proof fn lemma_inserted_members(names: Seq<Seq<char>>, name: Seq<char>)
    ensures
        inserted(names, name).len() == names.len() + 1,
        inserted(names, name).to_set() == names.to_set().insert(name),
    decreases names.len(),
{
    let all = inserted(names, name);
    if names.len() == 0 || !before(name, names.last()) {
        lemma_push_set(names, name);
    } else {
        let front = names.drop_last();
        lemma_inserted_members(front, name);
        lemma_push_set(inserted(front, name), names.last());
        lemma_push_set(front, names.last());
        assert(names =~= front.push(names.last()));
        assert(all.to_set() =~= names.to_set().insert(name));
    }
}

/// The set of a sequence with one item more.
pub proof fn lemma_push_set(names: Seq<Seq<char>>, name: Seq<char>)
    ensures
        names.push(name).to_set() == names.to_set().insert(name),
{
    let all = names.push(name);
    assert forall|x: Seq<char>| #[trigger] all.to_set().contains(x) == names.to_set().insert(
        name,
    ).contains(x) by {
        if names.contains(x) {
            let i = choose|i: int| 0 <= i < names.len() && names[i] == x;
            assert(all[i] == x);
        }
        assert(all[names.len() as int] == name);
        if all.contains(x) && x != name {
            let i = choose|i: int| 0 <= i < all.len() && all[i] == x;
            assert(names[i] == x);
        }
    }
    assert(all.to_set() =~= names.to_set().insert(name));
}

proof fn lemma_inserted_ascending(names: Seq<Seq<char>>, name: Seq<char>)
    requires
        ascending(names),
        !names.contains(name),
    ensures
        ascending(inserted(names, name)),
    decreases names.len(),
{
    let all = inserted(names, name);
    if names.len() == 0 {
    } else if !before(name, names.last()) {
        let last = names.len() - 1;
        lemma_total(name, names[last]);
        assert(names.contains(names[last]));
        assert forall|i: int, j: int| 0 <= i < j < all.len() implies before(
            #[trigger] all[i],
            #[trigger] all[j],
        ) by {
            if j < names.len() {
                assert(before(names[i], names[j]));
            } else if i < last {
                assert(before(names[i], names[last]));
                lemma_transitive(names[i], names[last], name);
            }
        }
    } else {
        let front = names.drop_last();
        let last = names.last();
        assert(ascending(front)) by {
            assert forall|i: int, j: int| 0 <= i < j < front.len() implies before(
                #[trigger] front[i],
                #[trigger] front[j],
            ) by {
                assert(before(names[i], names[j]));
            }
        }
        assert(!front.contains(name)) by {
            if front.contains(name) {
                let i = choose|i: int| 0 <= i < front.len() && front[i] == name;
                assert(names[i] == name);
            }
        }
        lemma_inserted_ascending(front, name);
        lemma_inserted_members(front, name);
        let most = inserted(front, name);
        assert forall|i: int, j: int| 0 <= i < j < all.len() implies before(
            #[trigger] all[i],
            #[trigger] all[j],
        ) by {
            if j < most.len() {
                assert(before(most[i], most[j]));
            } else {
                assert(most.to_set().contains(most[i]));
                if most[i] != name {
                    assert(front.contains(most[i]));
                    let k = choose|k: int| 0 <= k < front.len() && front[k] == most[i];
                    assert(before(names[k], names[names.len() - 1]));
                }
            }
        }
    }
}

/// Sorting names that are all different gives them in ascending order, and
/// the set of names stays.
pub proof fn lemma_sorted(names: Seq<Seq<char>>)
    ensures
        sorted(names).len() == names.len(),
        sorted(names).to_set() == names.to_set(),
        names.no_duplicates() ==> ascending(sorted(names)),
    decreases names.len(),
{
    if names.len() > 0 {
        let front = names.drop_last();
        lemma_sorted(front);
        lemma_inserted_members(sorted(front), names.last());
        lemma_push_set(front, names.last());
        assert(names =~= front.push(names.last()));
        if names.no_duplicates() {
            assert(front.no_duplicates());
            if sorted(front).contains(names.last()) {
                assert(sorted(front).to_set().contains(names.last()));
                assert(front.to_set().contains(names.last()));
                let i = choose|i: int| 0 <= i < front.len() && front[i] == names.last();
                assert(names[i] == names[names.len() - 1]);
            }
            lemma_inserted_ascending(sorted(front), names.last());
        }
    } else {
        assert(names =~= Seq::empty());
    }
}

proof fn lemma_ascending_unique(a: Seq<Seq<char>>, b: Seq<Seq<char>>)
    requires
        ascending(a),
        ascending(b),
        a.to_set() == b.to_set(),
    ensures
        a == b,
    decreases a.len(),
{
    if a.len() == 0 {
        if b.len() > 0 {
            assert(b.to_set().contains(b[0]));
            assert(a.contains(b[0]));
        }
        assert(a =~= b);
    } else {
        let x = a.last();
        assert(a[a.len() - 1] == x);
        assert(a.to_set().contains(x));
        assert(b.contains(x));
        let y = b.last();
        assert(b[b.len() - 1] == y);
        assert(b.to_set().contains(y));
        assert(a.contains(y));
        let i = choose|i: int| 0 <= i < a.len() && a[i] == y;
        let j = choose|j: int| 0 <= j < b.len() && b[j] == x;
        if x != y {
            assert(before(a[i], a[a.len() - 1]));
            assert(before(b[j], b[b.len() - 1]));
            lemma_transitive(x, y, x);
            lemma_irreflexive(x);
        }
        let fa = a.drop_last();
        let fb = b.drop_last();
        assert(ascending(fa)) by {
            assert forall|i: int, j: int| 0 <= i < j < fa.len() implies before(
                #[trigger] fa[i],
                #[trigger] fa[j],
            ) by {
                assert(before(a[i], a[j]));
            }
        }
        assert(ascending(fb)) by {
            assert forall|i: int, j: int| 0 <= i < j < fb.len() implies before(
                #[trigger] fb[i],
                #[trigger] fb[j],
            ) by {
                assert(before(b[i], b[j]));
            }
        }
        lemma_front_set(a);
        lemma_front_set(b);
        lemma_ascending_unique(fa, fb);
        assert(a =~= fa.push(x));
        assert(b =~= fb.push(x));
    }
}

proof fn lemma_front_set(a: Seq<Seq<char>>)
    requires
        ascending(a),
        a.len() > 0,
    ensures
        a.drop_last().to_set() == a.to_set().remove(a.last()),
{
    let front = a.drop_last();
    assert forall|x: Seq<char>| #[trigger] front.to_set().contains(x) == a.to_set().remove(
        a.last(),
    ).contains(x) by {
        if front.contains(x) {
            let i = choose|i: int| 0 <= i < front.len() && front[i] == x;
            assert(a[i] == x);
            assert(before(a[i], a[a.len() - 1]));
            lemma_irreflexive(x);
        }
        if a.contains(x) && x != a.last() {
            let i = choose|i: int| 0 <= i < a.len() && a[i] == x;
            assert(front[i] == x);
        }
    }
    assert(front.to_set() =~= a.to_set().remove(a.last()));
}

/// There is one way to list a set of names in ascending order.
pub proof fn law_listing_unique(names: Seq<Seq<char>>, set: Set<Seq<char>>)
    requires
        ascending(names),
        names.to_set() == set,
    ensures
        listing(set) == names,
{
    lemma_ascending_unique(listing(set), names);
}

/// Every finite set of names can be listed: its listing ascends, and holds
/// exactly its names.
pub proof fn law_listing(set: Set<Seq<char>>)
    requires
        set.finite(),
    ensures
        ascending(listing(set)),
        listing(set).to_set() == set,
    decreases set.len(),
{
    if set.is_empty() {
        let none = Seq::<Seq<char>>::empty();
        assert(none.to_set() =~= set);
        assert(ascending(none));
    } else {
        let name = set.choose();
        let rest = set.remove(name);
        law_listing(rest);
        let names = listing(rest);
        assert(!names.contains(name)) by {
            if names.contains(name) {
                assert(names.to_set().contains(name));
            }
        }
        lemma_inserted_ascending(names, name);
        lemma_inserted_members(names, name);
        assert(rest.insert(name) =~= set);
        assert(ascending(inserted(names, name)));
    }
}

/// Sorting keeps every name, as often as it occurs, and puts none after one
/// that it comes before.
pub proof fn law_sorted(names: Seq<Seq<char>>)
    ensures
        sorted(names).to_multiset() == names.to_multiset(),
        forall|i: int, j: int|
            0 <= i < j < sorted(names).len() ==> !before(
                #[trigger] sorted(names)[j],
                #[trigger] sorted(names)[i],
            ),
    decreases names.len(),
{
    if names.len() > 0 {
        let front = names.drop_last();
        law_sorted(front);
        lemma_inserted_multiset(sorted(front), names.last());
        lemma_inserted_weakly(sorted(front), names.last());
        lemma_inserted_members(sorted(front), names.last());
        assert(names =~= front.push(names.last()));
        front.to_multiset_ensures();
    } else {
        assert(names =~= Seq::empty());
    }
}

proof fn lemma_inserted_multiset(names: Seq<Seq<char>>, name: Seq<char>)
    ensures
        inserted(names, name).to_multiset() == names.to_multiset().insert(name),
    decreases names.len(),
{
    names.to_multiset_ensures();
    if names.len() > 0 && before(name, names.last()) {
        let front = names.drop_last();
        lemma_inserted_multiset(front, name);
        front.to_multiset_ensures();
        inserted(front, name).to_multiset_ensures();
        assert(names =~= front.push(names.last()));
        assert(names.to_multiset().insert(name) =~= front.to_multiset().insert(name).insert(
            names.last(),
        ));
    }
}

proof fn lemma_inserted_weakly(names: Seq<Seq<char>>, name: Seq<char>)
    requires
        forall|i: int, j: int|
            0 <= i < j < names.len() ==> !before(#[trigger] names[j], #[trigger] names[i]),
    ensures
        forall|i: int, j: int|
            0 <= i < j < names.len() + 1 ==> !before(
                #[trigger] inserted(names, name)[j],
                #[trigger] inserted(names, name)[i],
            ),
    decreases names.len(),
{
    let all = inserted(names, name);
    if names.len() == 0 {
    } else if !before(name, names.last()) {
        let last = names.len() - 1;
        assert forall|i: int, j: int| 0 <= i < j < names.len() + 1 implies !before(
            #[trigger] all[j],
            #[trigger] all[i],
        ) by {
            if j < names.len() {
                assert(!before(names[j], names[i]));
            } else if i < last {
                assert(!before(names[last], names[i]));
                if before(name, names[i]) {
                    lemma_total(names[i], names[last]);
                    if names[i] != names[last] {
                        lemma_transitive(name, names[i], names[last]);
                    }
                }
            }
        }
    } else {
        let front = names.drop_last();
        let last = names.len() - 1;
        assert forall|i: int, j: int| 0 <= i < j < front.len() implies !before(
            #[trigger] front[j],
            #[trigger] front[i],
        ) by {
            assert(!before(names[j], names[i]));
        }
        lemma_inserted_weakly(front, name);
        lemma_inserted_members(front, name);
        let most = inserted(front, name);
        assert forall|i: int, j: int| 0 <= i < j < names.len() + 1 implies !before(
            #[trigger] all[j],
            #[trigger] all[i],
        ) by {
            if j < most.len() {
                assert(!before(most[j], most[i]));
            } else {
                assert(most.to_set().contains(most[i]));
                if most[i] == name {
                    if before(names[last], name) {
                        lemma_transitive(name, names[last], name);
                        lemma_irreflexive(name);
                    }
                } else {
                    assert(front.contains(most[i]));
                    let k = choose|k: int| 0 <= k < front.len() && front[k] == most[i];
                    assert(!before(names[last], names[k]));
                }
            }
        }
    }
}

/// Puts a name in its place among names in ascending order.
fn insert_sorted(names: &mut Vec<String>, name: String)
    ensures
        final(names).deep_view() == inserted(old(names).deep_view(), name@),
{
    let ghost start = names.deep_view();
    let ghost all = names@;
    let ghost given = name@;
    let mut i: usize = names.len();
    proof {
        assert(start.take(i as int) =~= start);
        assert(start.skip(i as int) =~= Seq::empty());
        assert(inserted(start, name@) =~= inserted(start.take(i as int), name@) + start.skip(
            i as int,
        ));
    }
    while i > 0 && comes_before(name.as_str(), names[i - 1].as_str())
        invariant
            i <= names@.len(),
            names@ == all,
            start == names.deep_view(),
            given == name@,
            inserted(start, given) == inserted(start.take(i as int), given) + start.skip(i as int),
        decreases i,
    {
        proof {
            let cut = start.take(i as int);
            assert(cut.last() == names@[i - 1]@);
            assert(cut.drop_last() =~= start.take(i - 1));
            assert(inserted(start.take(i - 1), given).push(cut.last()) + start.skip(i as int)
                =~= inserted(start.take(i - 1), given) + start.skip(i - 1));
        }
        i = i - 1;
    }
    proof {
        let cut = start.take(i as int);
        if i > 0 {
            assert(cut.last() == names@[i - 1]@);
        }
        assert(inserted(cut, given) == cut.push(given));
    }
    names.insert(i, name);
    proof {
        assert(names.deep_view() =~= start.take(i as int).push(given) + start.skip(i as int));
    }
}

/// Sorts names into ascending order.
pub fn sort_names(names: &[String]) -> (r: Vec<String>)
    ensures
        r.deep_view() == sorted(names.deep_view()),
{
    let ghost all = names.deep_view();
    let mut r: Vec<String> = Vec::new();
    let mut i: usize = 0;
    proof {
        assert(r.deep_view() =~= sorted(all.take(0)));
    }
    while i < names.len()
        invariant
            i <= names@.len(),
            all == names.deep_view(),
            r.deep_view() == sorted(all.take(i as int)),
        decreases names.len() - i,
    {
        proof {
            assert(all.take(i + 1).drop_last() =~= all.take(i as int));
            assert(all.take(i + 1).last() == names@[i as int]@);
        }
        insert_sorted(&mut r, names[i].clone());
        i = i + 1;
    }
    proof {
        assert(all.take(i as int) =~= all);
    }
    r
}

/// The order of names: the first character in which they differ decides, and a
/// name stands before those that it begins. Of two names that differ one stands
/// before the other, no name before itself, and what stands before another name
/// stands before those behind that one.
pub proof fn law_order(
    start: Seq<char>,
    c: char,
    d: char,
    a: Seq<char>,
    b: Seq<char>,
    other: Seq<char>,
)
    ensures
        before(start, start + seq![c] + a),
        !before(start + seq![c] + a, start),
        c != d ==> (before(start + seq![c] + a, start + seq![d] + b) <==> c < d),
        !before(a, a),
        a != b ==> (before(a, b) <==> !before(b, a)),
        before(a, b) && before(b, other) ==> before(a, other),
    decreases start.len(),
{
    lemma_irreflexive(a);
    lemma_total(a, b);
    if before(a, b) && before(b, a) {
        lemma_transitive(a, b, a);
    }
    if before(a, b) && before(b, other) {
        lemma_transitive(a, b, other);
    }
    let x = start + seq![c] + a;
    let y = start + seq![d] + b;
    if start.len() > 0 {
        let rest = start.drop_first();
        law_order(rest, c, d, a, b, other);
        assert(x.drop_first() =~= rest + seq![c] + a);
        assert(y.drop_first() =~= rest + seq![d] + b);
        assert(x[0] == start[0] && y[0] == start[0]);
    } else {
        assert(x[0] == c && y[0] == d);
    }
}

} // verus!
