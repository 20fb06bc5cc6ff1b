//! What holds of the directory as a whole.

use vstd::prelude::*;

use crate::error::Failure;
use crate::record::Entry;
use crate::record::UpsertOutcome;
use crate::record::add_once;
use crate::record::is_address;
use crate::record::values_of;
use crate::record::with_field;
use crate::record::with_fields;
use crate::selection::Pick;
use crate::selection::answers_all;
use crate::store::Pair;
use crate::store::Store;
use crate::store::add_outcome;
use crate::store::all_same;
use crate::store::change_outcome;
use crate::store::chosen;
use crate::store::delete_outcome;
use crate::store::field_fault;
use crate::store::first_field_fault;
use crate::store::first_value;
use crate::store::goes_by;
use crate::store::identifier;
use crate::store::ids_of;
use crate::store::new_entry;
use crate::store::owned_by;
use crate::store::picked;
use crate::store::position_of;
use crate::store::query_outcome;
use crate::store::refreshed;
use crate::store::refreshed_fields;
use crate::store::targeted;
use crate::store::touches_type;
use crate::store::update_refusal;
use crate::store::upsert_outcome;
use crate::store::upsert_target;
use crate::text::ascii_lower;

verus! {

// ---------------------------------------------------------------------------
// Identifiers
// ---------------------------------------------------------------------------

/// Every record has an identifier of its own, given out in ascending order,
/// and the next one is still free.
pub open spec fn well_numbered(s: Store) -> bool {
    &&& forall|i: int, j: int|
        0 <= i < j < s.records.len() ==> (#[trigger] s.records[i]).id < (#[trigger] s.records[j]).id
    &&& forall|i: int| 0 <= i < s.records.len() ==> (#[trigger] s.records[i]).id < s.next_id
}

/// No two records have the same identifier.
pub open spec fn distinct_ids(s: Store) -> bool {
    forall|i: int, j: int|
        0 <= i < j < s.records.len() ==> (#[trigger] s.records[i]).id != (#[trigger] s.records[j]).id
}

/// Every record has an identifier of its own, and the next one is still free.
pub open spec fn apart(s: Store) -> bool {
    &&& distinct_ids(s)
    &&& forall|i: int| 0 <= i < s.records.len() ==> (#[trigger] s.records[i]).id < s.next_id
}

/// Identifiers that are given out in ascending order are distinct.
pub proof fn law_numbered_apart(s: Store)
    requires
        well_numbered(s),
    ensures
        apart(s),
{
    assert forall|i: int, j: int| 0 <= i < j < s.records.len() implies (#[trigger] s.records[i]).id
        != (#[trigger] s.records[j]).id by {
        assert(s.records[i].id < s.records[j].id);
    }
}

/// The numbering of a directory carries over to another.
pub open spec fn keeps_numbering(s: Store, after: Store) -> bool {
    &&& well_numbered(s) ==> well_numbered(after)
    &&& apart(s) ==> apart(after)
}

proof fn lemma_same_ids(s: Store, after: Store)
    requires
        after.records.len() == s.records.len(),
        forall|i: int|
            0 <= i < s.records.len() ==> (#[trigger] after.records[i]).id == s.records[i].id,
        after.next_id == s.next_id,
    ensures
        keeps_numbering(s, after),
{
    if well_numbered(s) {
        assert forall|i: int, j: int| 0 <= i < j < after.records.len() implies (
        #[trigger] after.records[i]).id < (#[trigger] after.records[j]).id by {
            assert(s.records[i].id < s.records[j].id);
        }
    }
    if apart(s) {
        assert forall|i: int, j: int| 0 <= i < j < after.records.len() implies (
        #[trigger] after.records[i]).id != (#[trigger] after.records[j]).id by {
            assert(s.records[i].id != s.records[j].id);
        }
    }
}

proof fn lemma_fields_keep_the_rest(e: Entry, fs: Seq<Pair>)
    ensures
        with_fields(e, fs).id == e.id,
        with_fields(e, fs).kind == e.kind,
        with_fields(e, fs).fingerprint == e.fingerprint,
        with_fields(e, fs).team == e.team,
        refreshed_fields(e, fs).id == e.id,
        refreshed_fields(e, fs).kind == e.kind,
        refreshed_fields(e, fs).fingerprint == e.fingerprint,
        refreshed_fields(e, fs).team == e.team,
    decreases fs.len(),
{
    if fs.len() > 0 {
        lemma_fields_keep_the_rest(e, fs.drop_last());
    }
}

proof fn lemma_filter_keeps_numbering(s: Store, keep: spec_fn(Entry) -> bool)
    requires
        well_numbered(s),
    ensures
        well_numbered(Store { records: s.records.filter(keep), next_id: s.next_id }),
        forall|i: int|
            0 <= i < s.records.filter(keep).len() ==> s.records.contains(
                #[trigger] s.records.filter(keep)[i],
            ),
    decreases s.records.len(),
{
    reveal(Seq::filter);
    if s.records.len() > 0 {
        let front = Store { records: s.records.drop_last(), next_id: s.next_id };
        assert(well_numbered(front)) by {
            assert forall|i: int, j: int| 0 <= i < j < front.records.len() implies (
            #[trigger] front.records[i]).id < (#[trigger] front.records[j]).id by {
                assert(s.records[i].id < s.records[j].id);
            }
            assert forall|i: int| 0 <= i < front.records.len() implies (
            #[trigger] front.records[i]).id < s.next_id by {
                assert(s.records[i].id < s.next_id);
            }
        }
        lemma_filter_keeps_numbering(front, keep);
        let kept = front.records.filter(keep);
        let all = s.records.filter(keep);
        let last = s.records.len() - 1;
        assert forall|i: int| 0 <= i < kept.len() implies s.records.contains(#[trigger] kept[i])
            && kept[i].id < s.records[last].id by {
            assert(front.records.contains(kept[i]));
            let j = choose|j: int| 0 <= j < front.records.len() && front.records[j] == kept[i];
            assert(s.records[j] == kept[i]);
            assert(s.records[j].id < s.records[last].id);
        }
        assert(s.records.contains(s.records[last]));
        assert forall|i: int| 0 <= i < all.len() implies s.records.contains(#[trigger] all[i]) by {
            if i < kept.len() {
                assert(all[i] == kept[i]);
            }
        }
        assert forall|i: int, j: int| 0 <= i < j < all.len() implies (#[trigger] all[i]).id < (
        #[trigger] all[j]).id by {
            assert(all[i] == kept[i]);
            if j < kept.len() {
                assert(all[j] == kept[j]);
            }
        }
        assert forall|i: int| 0 <= i < all.len() implies (#[trigger] all[i]).id < s.next_id by {
            if i < kept.len() {
                assert(all[i] == kept[i]);
            } else {
                assert(all[i] == s.records[last]);
            }
        }
    }
}

proof fn lemma_filter_keeps_apart(s: Store, keep: spec_fn(Entry) -> bool)
    requires
        apart(s),
    ensures
        apart(Store { records: s.records.filter(keep), next_id: s.next_id }),
        forall|i: int|
            0 <= i < s.records.filter(keep).len() ==> s.records.contains(
                #[trigger] s.records.filter(keep)[i],
            ),
    decreases s.records.len(),
{
    reveal(Seq::filter);
    if s.records.len() > 0 {
        let front = Store { records: s.records.drop_last(), next_id: s.next_id };
        assert(apart(front)) by {
            assert forall|i: int, j: int| 0 <= i < j < front.records.len() implies (
            #[trigger] front.records[i]).id != (#[trigger] front.records[j]).id by {
                assert(s.records[i].id != s.records[j].id);
            }
            assert forall|i: int| 0 <= i < front.records.len() implies (
            #[trigger] front.records[i]).id < s.next_id by {
                assert(s.records[i].id < s.next_id);
            }
        }
        lemma_filter_keeps_apart(front, keep);
        let kept = front.records.filter(keep);
        let all = s.records.filter(keep);
        let last = s.records.len() - 1;
        assert forall|i: int| 0 <= i < kept.len() implies s.records.contains(#[trigger] kept[i])
            && kept[i].id != s.records[last].id by {
            assert(front.records.contains(kept[i]));
            let j = choose|j: int| 0 <= j < front.records.len() && front.records[j] == kept[i];
            assert(s.records[j] == kept[i]);
            assert(s.records[j].id != s.records[last].id);
        }
        assert(s.records.contains(s.records[last]));
        assert forall|i: int| 0 <= i < all.len() implies s.records.contains(#[trigger] all[i]) by {
            if i < kept.len() {
                assert(all[i] == kept[i]);
            }
        }
        assert forall|i: int, j: int| 0 <= i < j < all.len() implies (#[trigger] all[i]).id != (
        #[trigger] all[j]).id by {
            assert(all[i] == kept[i]);
            if j < kept.len() {
                assert(all[j] == kept[j]);
            }
        }
        assert forall|i: int| 0 <= i < all.len() implies (#[trigger] all[i]).id < s.next_id by {
            if i < kept.len() {
                assert(all[i] == kept[i]);
            } else {
                assert(all[i] == s.records[last]);
            }
        }
    }
}

/// Adding keeps the numbering, and the new record gets the next identifier.
pub proof fn law_add_numbers(
    s: Store,
    fs: Seq<Pair>,
    fingerprint: Option<Seq<char>>,
    team: Option<Seq<char>>,
    now: Seq<char>,
)
    ensures
        add_outcome(s, fs, fingerprint, team, now) matches Ok(after) ==> {
            &&& keeps_numbering(s, after)
            &&& after.records.len() == s.records.len() + 1
            &&& after.records.last().id == s.next_id
            &&& after.records.drop_last() == s.records
        },
{
    if let Ok(after) = add_outcome(s, fs, fingerprint, team, now) {
        let blank = Entry {
            id: s.next_id,
            kind: None,
            fields: Map::empty(),
            multi: Map::empty(),
            fingerprint,
            team,
        };
        lemma_fields_keep_the_rest(blank, fs);
        assert(after.records.drop_last() =~= s.records);
        let last = s.records.len() as int;
        assert forall|i: int| 0 <= i < last implies #[trigger] after.records[i]
            == s.records[i] by {}
        assert(after.records[last].id == s.next_id);
        if well_numbered(s) {
            assert forall|i: int, j: int| 0 <= i < j < after.records.len() implies (
            #[trigger] after.records[i]).id < (#[trigger] after.records[j]).id by {
                assert(s.records[i].id < s.next_id);
                if j < last {
                    assert(s.records[i].id < s.records[j].id);
                }
            }
            assert forall|i: int| 0 <= i < after.records.len() implies (
            #[trigger] after.records[i]).id < after.next_id by {
                if i < last {
                    assert(s.records[i].id < s.next_id);
                }
            }
        }
        if apart(s) {
            assert forall|i: int, j: int| 0 <= i < j < after.records.len() implies (
            #[trigger] after.records[i]).id != (#[trigger] after.records[j]).id by {
                assert(s.records[i].id < s.next_id);
                if j < last {
                    assert(s.records[i].id != s.records[j].id);
                }
            }
            assert forall|i: int| 0 <= i < after.records.len() implies (
            #[trigger] after.records[i]).id < after.next_id by {
                if i < last {
                    assert(s.records[i].id < s.next_id);
                }
            }
        }
    }
}

/// An upsert keeps the numbering. It touches one record at most: every other
/// record stays as it is, where it is.
pub proof fn law_upsert_numbers(
    s: Store,
    fs: Seq<Pair>,
    fingerprint: Option<Seq<char>>,
    team: Option<Seq<char>>,
    now: Seq<char>,
)
    ensures
        upsert_outcome(s, fs, fingerprint, team, now) matches Ok((after, done)) ==> {
            &&& keeps_numbering(s, after)
            &&& done == UpsertOutcome::Created ==> after.records.drop_last() == s.records
            &&& done == UpsertOutcome::Updated ==> after.records.len() == s.records.len()
            &&& forall|i: int|
                0 <= i < s.records.len() && i != upsert_target(s.records, fs)
                    ==> #[trigger] after.records[i] == s.records[i]
        },
{
    law_add_numbers(s, fs, fingerprint, team, now);
    if let Ok((after, done)) = upsert_outcome(s, fs, fingerprint, team, now) {
        let t = upsert_target(s.records, fs);
        if done == UpsertOutcome::Updated {
            lemma_position(s.records, fs);
            let e = s.records[t];
            let r = refreshed(e, fs, fingerprint, team, now);
            let owned = Entry {
                fingerprint: if e.fingerprint is None {
                    fingerprint
                } else {
                    e.fingerprint
                },
                team: if e.team is None {
                    team
                } else {
                    e.team
                },
                ..e
            };
            lemma_fields_keep_the_rest(owned, fs);
            assert(r.id == e.id);
            assert forall|i: int| 0 <= i < after.records.len() implies (
            #[trigger] after.records[i]).id == s.records[i].id by {}
            lemma_same_ids(s, after);
        } else {
            assert forall|i: int|
                0 <= i < s.records.len() implies #[trigger] after.records[i] == s.records[i] by {
                assert(after.records.drop_last()[i] == s.records[i]);
            }
        }
    }
}

pub proof fn lemma_position_of(records: Seq<Entry>, name: Seq<char>)
    ensures
        0 <= position_of(records, name) <= records.len(),
        position_of(records, name) < records.len() ==> goes_by(
            records[position_of(records, name)],
            name,
        ),
        forall|i: int|
            0 <= i < position_of(records, name) ==> !goes_by(#[trigger] records[i], name),
    decreases records.len(),
{
    if records.len() > 0 && !goes_by(records[0], name) {
        let rest = records.drop_first();
        lemma_position_of(rest, name);
        assert forall|i: int| 0 <= i < position_of(records, name) implies !goes_by(
            #[trigger] records[i],
            name,
        ) by {
            if i > 0 {
                assert(rest[i - 1] == records[i]);
            }
        }
    }
}

pub proof fn lemma_position(records: Seq<Entry>, fs: Seq<Pair>)
    ensures
        0 <= upsert_target(records, fs) <= records.len(),
{
    if let Some(name) = identifier(fs) {
        lemma_position_of(records, name);
    }
}

/// Deleting keeps the numbering.
pub proof fn law_delete_numbers(
    s: Store,
    picks: Seq<Pick>,
    fingerprint: Option<Seq<char>>,
    teams: Seq<Seq<char>>,
    roles: Seq<Seq<char>>,
)
    ensures
        delete_outcome(s, picks, fingerprint, teams, roles) matches Ok((after, n)) ==> keeps_numbering(
            s,
            after,
        ),
{
    if let Ok((after, n)) = delete_outcome(s, picks, fingerprint, teams, roles) {
        let gone = chosen(
            s.records,
            |e: Entry| targeted(e, picks, fingerprint, teams, roles.contains("admin"@)),
        )->Ok_0;
        let keep = |e: Entry| !ids_of(gone).contains(e.id);
        if well_numbered(s) {
            lemma_filter_keeps_numbering(s, keep);
        }
        if apart(s) {
            lemma_filter_keeps_apart(s, keep);
        }
    }
}

/// Changing keeps the numbering: no record comes, goes or moves.
pub proof fn law_change_numbers(
    s: Store,
    picks: Seq<Pick>,
    mods: Seq<Pair>,
    fingerprint: Option<Seq<char>>,
    teams: Seq<Seq<char>>,
)
    ensures
        change_outcome(s, picks, mods, fingerprint, teams) matches Ok((after, n)) ==> keeps_numbering(
            s,
            after,
        ) && after.records.len() == s.records.len() && forall|i: int|
            0 <= i < s.records.len() ==> (#[trigger] after.records[i]).id == s.records[i].id,
{
    if let Ok((after, n)) = change_outcome(s, picks, mods, fingerprint, teams) {
        assert forall|i: int| 0 <= i < s.records.len() implies (#[trigger] after.records[i]).id
            == s.records[i].id by {
            lemma_fields_keep_the_rest(s.records[i], mods);
        }
        lemma_same_ids(s, after);
    }
}

// ---------------------------------------------------------------------------
// Choosing
// ---------------------------------------------------------------------------

pub proof fn lemma_no_failure(
    records: Seq<Entry>,
    verdict: spec_fn(Entry) -> Result<bool, Failure>,
)
    ensures
        chosen(records, verdict) is Ok <==> forall|i: int|
            0 <= i < records.len() ==> verdict(#[trigger] records[i]) is Ok,
    decreases records.len(),
{
    if records.len() > 0 {
        let front = records.drop_last();
        lemma_no_failure(front, verdict);
        assert(records.map_values(verdict).drop_last() =~= front.map_values(verdict));
        assert(records.map_values(verdict).last() == verdict(records.last()));
        if chosen(records, verdict) is Ok {
            assert forall|i: int| 0 <= i < records.len() implies verdict(
                #[trigger] records[i],
            ) is Ok by {
                if i < front.len() {
                    assert(front[i] == records[i]);
                }
            }
        }
        if forall|i: int| 0 <= i < records.len() ==> verdict(#[trigger] records[i]) is Ok {
            assert forall|i: int| 0 <= i < front.len() implies verdict(
                #[trigger] front[i],
            ) is Ok by {
                assert(front[i] == records[i]);
            }
            assert(verdict(records[records.len() - 1]) is Ok);
        }
    }
}

pub proof fn lemma_filter_members(records: Seq<Entry>, keep: spec_fn(Entry) -> bool)
    ensures
        forall|e: Entry| #[trigger]
            records.filter(keep).contains(e) <==> records.contains(e) && keep(e),
    decreases records.len(),
{
    reveal(Seq::filter);
    if records.len() > 0 {
        let front = records.drop_last();
        lemma_filter_members(front, keep);
        let last = records.last();
        assert forall|e: Entry| #[trigger] records.filter(keep).contains(e) <==> records.contains(
            e,
        ) && keep(e) by {
            assert(records =~= front.push(last));
            assert(records.contains(e) <==> front.contains(e) || e == last) by {
                if records.contains(e) {
                    let i = choose|i: int| 0 <= i < records.len() && records[i] == e;
                    if i < front.len() {
                        assert(front[i] == e);
                    }
                }
                if front.contains(e) {
                    let i = choose|i: int| 0 <= i < front.len() && front[i] == e;
                    assert(records[i] == e);
                }
                assert(records[records.len() - 1] == last);
            }
            let kept = front.filter(keep);
            if keep(last) {
                assert(records.filter(keep) == kept.push(last));
                if kept.contains(e) {
                    let i = choose|i: int| 0 <= i < kept.len() && kept[i] == e;
                    assert(kept.push(last)[i] == e);
                }
                assert(kept.push(last)[kept.len() as int] == last);
                if kept.push(last).contains(e) && e != last {
                    let i = choose|i: int|
                        0 <= i < kept.push(last).len() && kept.push(last)[i] == e;
                    assert(kept[i] == e);
                }
            }
        }
    }
}

/// A query gives exactly the records that answer it: each record that it gives
/// is in the directory and is picked out, and each record that is picked out
/// is given.
pub proof fn law_query_exact(
    s: Store,
    picks: Seq<Pick>,
    default_kind: Option<crate::record::Kind>,
    e: Entry,
)
    ensures
        query_outcome(s.records, picks, default_kind) matches Ok(answer) ==> (answer.contains(e)
            <==> s.records.contains(e) && picked(e, picks, default_kind) == Ok::<bool, Failure>(
            true,
        )),
{
    let verdict = |x: Entry| picked(x, picks, default_kind);
    lemma_filter_members(
        s.records,
        |x: Entry| verdict(x) == Ok::<bool, Failure>(true),
    );
}

/// Selections add up: a record answers two lists of selections together
/// exactly when it answers the one and the other.
pub proof fn law_selections_conjoin(e: Entry, first: Seq<Pick>, second: Seq<Pick>)
    ensures
        answers_all(e, first + second) == Ok::<bool, Failure>(true) <==> answers_all(e, first)
            == Ok::<bool, Failure>(true) && answers_all(e, second) == Ok::<bool, Failure>(true),
    decreases first.len(),
{
    if first.len() == 0 {
        assert(first + second =~= second);
    } else {
        assert((first + second)[0] == first[0]);
        assert((first + second).drop_first() =~= first.drop_first() + second);
        law_selections_conjoin(e, first.drop_first(), second);
    }
}

/// A query is answered after an addition as before it, with the new record at
/// the end where it is picked out.
pub proof fn law_query_after_add(
    s: Store,
    added: Entry,
    picks: Seq<Pick>,
    default_kind: Option<crate::record::Kind>,
)
    requires
        query_outcome(s.records, picks, default_kind) is Ok,
        picked(added, picks, default_kind) is Ok,
    ensures
        query_outcome(s.records.push(added), picks, default_kind) == Ok::<Seq<Entry>, Failure>(
            if picked(added, picks, default_kind) == Ok::<bool, Failure>(true) {
                (query_outcome(s.records, picks, default_kind)->Ok_0).push(added)
            } else {
                query_outcome(s.records, picks, default_kind)->Ok_0
            },
        ),
{
    let verdict = |x: Entry| picked(x, picks, default_kind);
    let all = s.records.push(added);
    crate::store::lemma_chosen_step(all, verdict, s.records.len() as int);
    assert(all.take(s.records.len() as int) =~= s.records);
    assert(all.take(all.len() as int) =~= all);
}

/// What was deleted is gone: the same selections then find nothing. And
/// nothing else is gone: a record that does not answer them stays.
pub proof fn law_delete_removes(
    s: Store,
    picks: Seq<Pick>,
    fingerprint: Option<Seq<char>>,
    teams: Seq<Seq<char>>,
    roles: Seq<Seq<char>>,
)
    requires
        distinct_ids(s),
    ensures
        delete_outcome(s, picks, fingerprint, teams, roles) matches Ok((after, n)) ==> {
            &&& query_outcome(after.records, picks, None) == Ok::<Seq<Entry>, Failure>(Seq::empty())
            &&& after.records == s.records.filter(
                |e: Entry| answers_all(e, picks) == Ok::<bool, Failure>(false),
            )
            &&& query_outcome(s.records, picks, None) matches Ok(gone) && gone.len() == n
        },
{
    let admin = roles.contains("admin"@);
    let verdict = |e: Entry| targeted(e, picks, fingerprint, teams, admin);
    let hit = |e: Entry| verdict(e) == Ok::<bool, Failure>(true);
    if let Ok((after, n)) = delete_outcome(s, picks, fingerprint, teams, roles) {
        let gone = s.records.filter(hit);
        lemma_no_failure(s.records, verdict);
        lemma_filter_members(s.records, hit);
        let keep = |e: Entry| !ids_of(gone).contains(e.id);
        let stays = |e: Entry| answers_all(e, picks) == Ok::<bool, Failure>(false);
        assert forall|i: int| 0 <= i < s.records.len() implies keep(#[trigger] s.records[i])
            == stays(s.records[i]) by {
            let e = s.records[i];
            assert(verdict(e) is Ok);
            let ids = gone.map_values(|x: Entry| x.id);
            if ids_of(gone).contains(e.id) {
                let j = choose|j: int| 0 <= j < ids.len() && ids[j] == e.id;
                assert(gone.contains(gone[j]));
                let k = choose|k: int| 0 <= k < s.records.len() && s.records[k] == gone[j];
                if k < i {
                    assert(s.records[k].id != s.records[i].id);
                }
                if i < k {
                    assert(s.records[i].id != s.records[k].id);
                }
                assert(e == gone[j]);
                assert(hit(e));
            } else {
                if hit(e) {
                    assert(gone.contains(e));
                    let j = choose|j: int| 0 <= j < gone.len() && gone[j] == e;
                    assert(ids[j] == e.id);
                    assert(ids.contains(e.id));
                }
            }
        }
        lemma_filter_agrees(s.records, keep, stays);
        let asked = |e: Entry| picked(e, picks, None);
        lemma_filter_members(s.records, stays);
        assert forall|i: int| 0 <= i < after.records.len() implies asked(
            #[trigger] after.records[i],
        ) == Ok::<bool, Failure>(false) by {
            assert(after.records.contains(after.records[i]));
        }
        lemma_no_failure(after.records, asked);
        lemma_filter_members(
            after.records,
            |e: Entry| asked(e) == Ok::<bool, Failure>(true),
        );
        let none = after.records.filter(|e: Entry| asked(e) == Ok::<bool, Failure>(true));
        assert(none.len() == 0) by {
            if none.len() > 0 {
                assert(none.contains(none[0]));
                let k = choose|k: int| 0 <= k < after.records.len() && after.records[k] == none[0];
                assert(asked(after.records[k]) == Ok::<bool, Failure>(false));
            }
        }
        assert(none =~= Seq::empty());
        assert forall|i: int| 0 <= i < s.records.len() implies asked(#[trigger] s.records[i])
            == verdict(s.records[i]) by {
            assert(verdict(s.records[i]) is Ok);
        }
        lemma_no_failure(s.records, asked);
        lemma_filter_agrees(
            s.records,
            hit,
            |e: Entry| asked(e) == Ok::<bool, Failure>(true),
        );
    }
}

pub proof fn lemma_filter_agrees(
    records: Seq<Entry>,
    f: spec_fn(Entry) -> bool,
    g: spec_fn(Entry) -> bool,
)
    requires
        forall|i: int| 0 <= i < records.len() ==> f(#[trigger] records[i]) == g(records[i]),
    ensures
        records.filter(f) == records.filter(g),
    decreases records.len(),
{
    reveal(Seq::filter);
    if records.len() > 0 {
        let front = records.drop_last();
        assert forall|i: int| 0 <= i < front.len() implies f(#[trigger] front[i]) == g(
            front[i],
        ) by {
            assert(front[i] == records[i]);
        }
        assert(f(records[records.len() - 1]) == g(records[records.len() - 1]));
        lemma_filter_agrees(front, f, g);
    }
}

// ---------------------------------------------------------------------------
// Authorization
// ---------------------------------------------------------------------------

/// Deleting succeeds only where every record that answers is the caller's to
/// delete, or the caller is an administrator.
pub proof fn law_delete_authorized(
    s: Store,
    picks: Seq<Pick>,
    fingerprint: Option<Seq<char>>,
    teams: Seq<Seq<char>>,
    roles: Seq<Seq<char>>,
    e: Entry,
)
    requires
        s.records.contains(e),
        answers_all(e, picks) == Ok::<bool, Failure>(true),
    ensures
        delete_outcome(s, picks, fingerprint, teams, roles) is Ok ==> owned_by(
            e,
            fingerprint,
            teams,
        ) || roles.contains("admin"@),
{
    let verdict = |x: Entry| targeted(x, picks, fingerprint, teams, roles.contains("admin"@));
    lemma_no_failure(s.records, verdict);
    if delete_outcome(s, picks, fingerprint, teams, roles) is Ok {
        let i = choose|i: int| 0 <= i < s.records.len() && s.records[i] == e;
        assert(verdict(s.records[i]) is Ok);
    }
}

/// Changing succeeds only where every record that answers is the caller's to
/// change. An administrator has no privilege here.
pub proof fn law_change_authorized(
    s: Store,
    picks: Seq<Pick>,
    mods: Seq<Pair>,
    fingerprint: Option<Seq<char>>,
    teams: Seq<Seq<char>>,
    e: Entry,
)
    requires
        s.records.contains(e),
        answers_all(e, picks) == Ok::<bool, Failure>(true),
    ensures
        change_outcome(s, picks, mods, fingerprint, teams) is Ok ==> owned_by(
            e,
            fingerprint,
            teams,
        ),
{
    let verdict = |x: Entry| targeted(x, picks, fingerprint, teams, false);
    lemma_no_failure(s.records, verdict);
    if change_outcome(s, picks, mods, fingerprint, teams) is Ok {
        let i = choose|i: int| 0 <= i < s.records.len() && s.records[i] == e;
        assert(verdict(s.records[i]) is Ok);
    }
}

/// An administrator is never refused a deletion for want of authorization:
/// any record can be recovered from, whoever owns it.
pub proof fn law_admin_deletes(
    s: Store,
    picks: Seq<Pick>,
    fingerprint: Option<Seq<char>>,
    teams: Seq<Seq<char>>,
    roles: Seq<Seq<char>>,
)
    requires
        roles.contains("admin"@),
        query_outcome(s.records, picks, None) is Ok,
    ensures
        delete_outcome(s, picks, fingerprint, teams, roles) is Ok,
{
    let verdict = |x: Entry| targeted(x, picks, fingerprint, teams, roles.contains("admin"@));
    let asked = |x: Entry| picked(x, picks, None);
    lemma_no_failure(s.records, asked);
    assert forall|i: int| 0 <= i < s.records.len() implies verdict(
        #[trigger] s.records[i],
    ) is Ok by {
        assert(asked(s.records[i]) is Ok);
    }
    lemma_no_failure(s.records, verdict);
}

/// A record bonded to a key stays bonded to it: an upsert with another key is
/// refused as a collision, and one that succeeds leaves the bond.
pub proof fn law_upsert_keeps_owner(
    s: Store,
    fs: Seq<Pair>,
    fingerprint: Option<Seq<char>>,
    team: Option<Seq<char>>,
    now: Seq<char>,
)
    requires
        upsert_target(s.records, fs) < s.records.len(),
        first_field_fault(fs) is None,
    ensures
        ({
            let i = upsert_target(s.records, fs);
            let e = s.records[i];
            &&& e.fingerprint is Some && e.fingerprint != fingerprint ==> upsert_outcome(
                s,
                fs,
                fingerprint,
                team,
                now,
            ) == Err::<(Store, UpsertOutcome), Failure>(Failure::Collision)
            &&& upsert_outcome(s, fs, fingerprint, team, now) matches Ok((after, done)) ==> {
                &&& done == UpsertOutcome::Updated
                &&& e.fingerprint is Some ==> after.records[i].fingerprint == e.fingerprint
                &&& e.fingerprint is None ==> after.records[i].fingerprint == fingerprint
                &&& e.team is Some ==> after.records[i].team == e.team
                &&& e.team is None ==> after.records[i].team == team
            }
        }),
{
    lemma_position(s.records, fs);
    let e = s.records[upsert_target(s.records, fs)];
    let owned = Entry {
        fingerprint: if e.fingerprint is None {
            fingerprint
        } else {
            e.fingerprint
        },
        team: if e.team is None {
            team
        } else {
            e.team
        },
        ..e
    };
    lemma_fields_keep_the_rest(owned, fs);
}

/// Changing touches exactly the records that answer the selections, and sets
/// exactly the given fields of each, but for a source that is set.
pub proof fn law_change_exact(
    s: Store,
    picks: Seq<Pick>,
    mods: Seq<Pair>,
    fingerprint: Option<Seq<char>>,
    teams: Seq<Seq<char>>,
    i: int,
)
    requires
        distinct_ids(s),
        0 <= i < s.records.len(),
    ensures
        change_outcome(s, picks, mods, fingerprint, teams) matches Ok((after, n)) ==> {
            &&& answers_all(s.records[i], picks) is Ok
            &&& after.records[i] == if answers_all(s.records[i], picks) == Ok::<bool, Failure>(
                true,
            ) {
                refreshed_fields(s.records[i], mods)
            } else {
                s.records[i]
            }
        },
{
    let verdict = |e: Entry| targeted(e, picks, fingerprint, teams, false);
    let hit = |e: Entry| verdict(e) == Ok::<bool, Failure>(true);
    if change_outcome(s, picks, mods, fingerprint, teams) is Ok {
        let touched = s.records.filter(hit);
        lemma_no_failure(s.records, verdict);
        lemma_filter_members(s.records, hit);
        let e = s.records[i];
        assert(verdict(s.records[i]) is Ok);
        let ids = touched.map_values(|x: Entry| x.id);
        if ids_of(touched).contains(e.id) {
            let j = choose|j: int| 0 <= j < ids.len() && ids[j] == e.id;
            assert(touched.contains(touched[j]));
            let k = choose|k: int| 0 <= k < s.records.len() && s.records[k] == touched[j];
            if k < i {
                assert(s.records[k].id != s.records[i].id);
            }
            if i < k {
                assert(s.records[i].id != s.records[k].id);
            }
            assert(hit(e));
        } else if hit(e) {
            assert(s.records.contains(e));
            assert(touched.contains(e));
            let j = choose|j: int| 0 <= j < touched.len() && touched[j] == e;
            assert(ids[j] == e.id);
            assert(ids.contains(e.id));
        }
    }
}

// ---------------------------------------------------------------------------
// Fields
// ---------------------------------------------------------------------------

/// A field is among those given.
pub open spec fn named(fs: Seq<Pair>, name: Seq<char>) -> bool {
    exists|i: int| 0 <= i < fs.len() && (#[trigger] fs[i]).0 == name
}

/// No name is given two values.
pub open spec fn agreeing(fs: Seq<Pair>) -> bool {
    forall|i: int, j: int|
        0 <= i < fs.len() && 0 <= j < fs.len() && (#[trigger] fs[i]).0 == (#[trigger] fs[j]).0
            ==> fs[i].1 == fs[j].1
}

proof fn lemma_named_front(fs: Seq<Pair>, name: Seq<char>)
    requires
        fs.len() > 0,
    ensures
        named(fs, name) <==> named(fs.drop_last(), name) || fs.last().0 == name,
        forall|value: Seq<char>|
            all_same(fs, name, value) ==> #[trigger] all_same(fs.drop_last(), name, value),
{
    let front = fs.drop_last();
    if named(fs, name) {
        let i = choose|i: int| 0 <= i < fs.len() && (#[trigger] fs[i]).0 == name;
        if i < front.len() {
            assert(front[i].0 == name);
        }
    }
    if named(front, name) {
        let i = choose|i: int| 0 <= i < front.len() && (#[trigger] front[i]).0 == name;
        assert(fs[i].0 == name);
    }
    if fs.last().0 == name {
        assert(fs[fs.len() - 1].0 == name);
    }
    assert forall|value: Seq<char>| all_same(fs, name, value) implies #[trigger] all_same(
        front,
        name,
        value,
    ) by {
        assert forall|i: int| 0 <= i < front.len() && (#[trigger] front[i]).0 == name implies front[i].1
            == value by {
            assert(fs[i].0 == name);
        }
    }
}

/// A field that is not among those given stays as it is.
pub proof fn lemma_elsewhere(e: Entry, fs: Seq<Pair>, name: Seq<char>)
    requires
        !named(fs, name),
    ensures
        with_fields(e, fs).fields.contains_key(name) == e.fields.contains_key(name),
        with_fields(e, fs).fields[name] == e.fields[name],
        with_fields(e, fs).multi.contains_key(name) == e.multi.contains_key(name),
        with_fields(e, fs).multi[name] == e.multi[name],
        refreshed_fields(e, fs).fields.contains_key(name) == e.fields.contains_key(name),
        refreshed_fields(e, fs).fields[name] == e.fields[name],
        refreshed_fields(e, fs).multi.contains_key(name) == e.multi.contains_key(name),
        refreshed_fields(e, fs).multi[name] == e.multi[name],
    decreases fs.len(),
{
    if fs.len() > 0 {
        lemma_named_front(fs, name);
        lemma_elsewhere(e, fs.drop_last(), name);
    }
}

/// A value that every pair of its name agrees on is the value of the field.
proof fn lemma_settled(e: Entry, fs: Seq<Pair>, name: Seq<char>, value: Seq<char>)
    requires
        all_same(fs, name, value),
        !is_address(name),
        name != "source"@,
        named(fs, name) || (e.fields.contains_key(name) && e.fields[name] == value),
    ensures
        with_fields(e, fs).fields.contains_key(name),
        with_fields(e, fs).fields[name] == value,
        refreshed_fields(e, fs).fields.contains_key(name),
        refreshed_fields(e, fs).fields[name] == value,
    decreases fs.len(),
{
    if fs.len() > 0 {
        lemma_named_front(fs, name);
        if fs.last().0 == name {
            assert(fs[fs.len() - 1].1 == value);
        } else {
            lemma_settled(e, fs.drop_last(), name, value);
        }
    }
}

/// The source of a record that has one stays.
pub proof fn lemma_source_stays(e: Entry, fs: Seq<Pair>)
    requires
        e.fields.contains_key("source"@),
    ensures
        refreshed_fields(e, fs).fields.contains_key("source"@),
        refreshed_fields(e, fs).fields["source"@] == e.fields["source"@],
    decreases fs.len(),
{
    if fs.len() > 0 {
        lemma_source_stays(e, fs.drop_last());
    }
}

pub proof fn lemma_names_differ()
    ensures
        !is_address("type"@),
        !is_address("source"@),
        !is_address("hostname"@),
        !is_address("alias"@),
        !is_address("created_at"@),
        !is_address("last_seen_at"@),
        "type"@ != "source"@,
        "hostname"@ != "source"@,
        "alias"@ != "source"@,
        "created_at"@ != "source"@,
        "last_seen_at"@ != "type"@,
        "last_seen_at"@ != "source"@,
        "last_seen_at"@ != "created_at"@,
        "last_seen_at"@ != "hostname"@,
        "last_seen_at"@ != "alias"@,
        "last_seen_at"@ != "ip"@,
        "last_seen_at"@ != "mac"@,
        "created_at"@ != "type"@,
        "created_at"@ != "hostname"@,
        "created_at"@ != "alias"@,
        "created_at"@ != "ip"@,
        "created_at"@ != "mac"@,
        "ip_addr"@ != "mac_addr"@,
        "ip_addr"@ != "mac"@,
{
    reveal_strlit("type");
    reveal_strlit("source");
    reveal_strlit("hostname");
    reveal_strlit("alias");
    reveal_strlit("created_at");
    reveal_strlit("last_seen_at");
    reveal_strlit("ip_addr");
    reveal_strlit("mac_addr");
    reveal_strlit("ip");
    reveal_strlit("mac");
    assert("type"@.len() == 4);
    assert("source"@.len() == 6);
    assert("hostname"@.len() == 8);
    assert("alias"@.len() == 5);
    assert("created_at"@.len() == 10);
    assert("last_seen_at"@.len() == 12);
    assert("ip_addr"@.len() == 7);
    assert("mac_addr"@.len() == 8);
    assert("ip"@.len() == 2);
    assert("mac"@.len() == 3);
    assert("hostname"@[0] != "mac_addr"@[0]);
}

proof fn lemma_first_value(fs: Seq<Pair>, name: Seq<char>)
    ensures
        first_value(fs, name) is Some <==> named(fs, name),
        forall|value: Seq<char>| #[trigger]
            all_same(fs, name, value) && named(fs, name) ==> first_value(fs, name) == Some(value),
        agreeing(fs) && named(fs, name) ==> all_same(fs, name, first_value(fs, name)->0),
    decreases fs.len(),
{
    if fs.len() > 0 {
        let rest = fs.drop_first();
        lemma_first_value(rest, name);
        if named(rest, name) {
            let i = choose|i: int| 0 <= i < rest.len() && (#[trigger] rest[i]).0 == name;
            assert(fs[i + 1].0 == name);
        }
        if named(fs, name) && fs[0].0 != name {
            let i = choose|i: int| 0 <= i < fs.len() && (#[trigger] fs[i]).0 == name;
            assert(rest[i - 1].0 == name);
        }
        assert forall|value: Seq<char>| #[trigger] all_same(fs, name, value) && named(fs, name) implies first_value(
            fs, name) == Some(value) by {
            if fs[0].0 != name {
                assert forall|i: int| 0 <= i < rest.len() && (#[trigger] rest[i]).0 == name implies rest[i].1
                    == value by {
                    assert(fs[i + 1].0 == name);
                }
                assert(all_same(rest, name, value));
            }
        }
        if agreeing(fs) && named(fs, name) {
            if fs[0].0 != name {
                assert(agreeing(rest)) by {
                    assert forall|i: int, j: int|
                        0 <= i < rest.len() && 0 <= j < rest.len() && (#[trigger] rest[i]).0 == (
                        #[trigger] rest[j]).0 implies rest[i].1 == rest[j].1 by {
                        assert(fs[i + 1].0 == fs[j + 1].0);
                    }
                }
                let v = first_value(rest, name)->0;
                assert forall|i: int| 0 <= i < fs.len() && (#[trigger] fs[i]).0 == name implies fs[i].1
                    == v by {
                    assert(rest[i - 1].0 == name);
                }
            } else {
                assert forall|i: int| 0 <= i < fs.len() && (#[trigger] fs[i]).0 == name implies fs[i].1
                    == fs[0].1 by {}
            }
        }
    }
}

/// A record that an upsert brings up to date stays what it is: its identifier,
/// its kind and its source are those it had; so is when it was created, unless
/// the upsert says otherwise, and every field that is not given; and it was
/// last seen now.
pub proof fn law_upsert_keeps(
    s: Store,
    fs: Seq<Pair>,
    fingerprint: Option<Seq<char>>,
    team: Option<Seq<char>>,
    now: Seq<char>,
    name: Seq<char>,
)
    requires
        upsert_target(s.records, fs) < s.records.len(),
    ensures
        ({
            let i = upsert_target(s.records, fs);
            let e = s.records[i];
            upsert_outcome(s, fs, fingerprint, team, now) matches Ok((after, done)) ==> {
                let r = after.records[i];
                &&& r.id == e.id
                &&& r.kind == e.kind
                &&& e.fields.contains_key("source"@) ==> r.fields.contains_key("source"@)
                    && r.fields["source"@] == e.fields["source"@]
                &&& r.fields.contains_key("last_seen_at"@) && r.fields["last_seen_at"@] == now
                &&& !named(fs, name) && name != "last_seen_at"@ ==> r.fields.contains_key(name)
                    == e.fields.contains_key(name) && r.fields[name] == e.fields[name]
                &&& !named(fs, "created_at"@) ==> r.fields.contains_key("created_at"@)
                    == e.fields.contains_key("created_at"@) && r.fields["created_at"@]
                    == e.fields["created_at"@]
            }
        }),
{
    lemma_position(s.records, fs);
    lemma_names_differ();
    let e = s.records[upsert_target(s.records, fs)];
    let owned = Entry {
        fingerprint: if e.fingerprint is None {
            fingerprint
        } else {
            e.fingerprint
        },
        team: if e.team is None {
            team
        } else {
            e.team
        },
        ..e
    };
    lemma_fields_keep_the_rest(owned, fs);
    if e.fields.contains_key("source"@) {
        lemma_source_stays(owned, fs);
    }
    if !named(fs, name) {
        lemma_elsewhere(owned, fs, name);
    }
    if !named(fs, "created_at"@) {
        lemma_elsewhere(owned, fs, "created_at"@);
    }
}

/// The type of a record is set once: an upsert that gives another is refused,
/// wherever it stands among the fields, and one that succeeds leaves the type
/// it was.
pub proof fn law_upsert_keeps_type(
    s: Store,
    fs: Seq<Pair>,
    fingerprint: Option<Seq<char>>,
    team: Option<Seq<char>>,
    now: Seq<char>,
)
    requires
        upsert_target(s.records, fs) < s.records.len(),
        s.records[upsert_target(s.records, fs)].fields.contains_key("type"@),
    ensures
        ({
            let i = upsert_target(s.records, fs);
            let e = s.records[i];
            &&& !all_same(fs, "type"@, e.fields["type"@]) ==> upsert_outcome(
                s,
                fs,
                fingerprint,
                team,
                now,
            ) is Err
            &&& upsert_outcome(s, fs, fingerprint, team, now) matches Ok((after, done)) ==> {
                &&& after.records[i].fields.contains_key("type"@)
                &&& after.records[i].fields["type"@] == e.fields["type"@]
                &&& after.records[i].kind == e.kind
            }
        }),
{
    lemma_position(s.records, fs);
    lemma_names_differ();
    let e = s.records[upsert_target(s.records, fs)];
    let owned = Entry {
        fingerprint: if e.fingerprint is None {
            fingerprint
        } else {
            e.fingerprint
        },
        team: if e.team is None {
            team
        } else {
            e.team
        },
        ..e
    };
    lemma_fields_keep_the_rest(owned, fs);
    if all_same(fs, "type"@, e.fields["type"@]) {
        lemma_settled(owned, fs, "type"@, e.fields["type"@]);
    }
}

/// A change leaves every record's type, and its kind, as they are.
pub proof fn law_change_keeps_type(
    s: Store,
    picks: Seq<Pick>,
    mods: Seq<Pair>,
    fingerprint: Option<Seq<char>>,
    teams: Seq<Seq<char>>,
    i: int,
)
    requires
        0 <= i < s.records.len(),
    ensures
        change_outcome(s, picks, mods, fingerprint, teams) matches Ok((after, n)) ==> {
            &&& after.records[i].fields.contains_key("type"@) == s.records[i].fields.contains_key(
                "type"@,
            )
            &&& after.records[i].fields["type"@] == s.records[i].fields["type"@]
            &&& after.records[i].kind == s.records[i].kind
            &&& after.records[i].fingerprint == s.records[i].fingerprint
            &&& after.records[i].team == s.records[i].team
        },
{
    if change_outcome(s, picks, mods, fingerprint, teams) is Ok {
        lemma_type_not_named(mods);
        lemma_elsewhere(s.records[i], mods, "type"@);
        lemma_fields_keep_the_rest(s.records[i], mods);
    }
}

/// A change leaves the source of a record as it is, once it is set.
pub proof fn law_change_keeps_source(
    s: Store,
    picks: Seq<Pick>,
    mods: Seq<Pair>,
    fingerprint: Option<Seq<char>>,
    teams: Seq<Seq<char>>,
    i: int,
)
    requires
        0 <= i < s.records.len(),
        s.records[i].fields.contains_key("source"@),
    ensures
        change_outcome(s, picks, mods, fingerprint, teams) matches Ok((after, n)) ==> {
            &&& after.records[i].fields.contains_key("source"@)
            &&& after.records[i].fields["source"@] == s.records[i].fields["source"@]
        },
{
    lemma_source_stays(s.records[i], mods);
}

proof fn lemma_type_not_named(mods: Seq<Pair>)
    requires
        !touches_type(mods),
    ensures
        !named(mods, "type"@),
{
    reveal_strlit("type");
    assert(ascii_lower("type"@) =~= "type"@);
    if named(mods, "type"@) {
        let j = choose|j: int| 0 <= j < mods.len() && (#[trigger] mods[j]).0 == "type"@;
        assert(ascii_lower(mods[j].0) == "type"@);
    }
}

/// Upserting the same fields again makes no second record: it finds the record
/// of the first time. The fields must not give one name two values.
pub proof fn law_upsert_again(
    s: Store,
    fs: Seq<Pair>,
    fingerprint: Option<Seq<char>>,
    team: Option<Seq<char>>,
    now: Seq<char>,
    later: Seq<char>,
)
    requires
        agreeing(fs),
        identifier(fs) is Some,
    ensures
        upsert_outcome(s, fs, fingerprint, team, now) matches Ok((after, done)) ==> (upsert_outcome(
            after,
            fs,
            fingerprint,
            team,
            later,
        ) matches Ok((again, outcome)) && outcome == UpsertOutcome::Updated && again.records.len()
            == after.records.len()),
{
    if let Ok((after, done)) = upsert_outcome(s, fs, fingerprint, team, now) {
        let name = identifier(fs)->0;
        let t = upsert_target(s.records, fs);
        lemma_position_of(s.records, name);
        lemma_names_differ();
        lemma_identifier(fs);
        let key = if named(fs, "hostname"@) && first_value(fs, "hostname"@)->0 == name {
            "hostname"@
        } else {
            "alias"@
        };
        lemma_first_value(fs, key);
        lemma_first_value(fs, "type"@);
        let r = after.records[t];
        if t < s.records.len() {
            let e = s.records[t];
            let owned = Entry {
                fingerprint: if e.fingerprint is None {
                    fingerprint
                } else {
                    e.fingerprint
                },
                team: if e.team is None {
                    team
                } else {
                    e.team
                },
                ..e
            };
            lemma_settled(owned, fs, key, name);
            if named(fs, "type"@) {
                lemma_settled(owned, fs, "type"@, first_value(fs, "type"@)->0);
            }
            lemma_fields_keep_the_rest(owned, fs);
        } else {
            let blank = Entry {
                id: s.next_id,
                kind: None,
                fields: Map::empty(),
                multi: Map::empty(),
                fingerprint,
                team,
            };
            lemma_settled(blank, fs, key, name);
            if named(fs, "type"@) {
                lemma_settled(blank, fs, "type"@, first_value(fs, "type"@)->0);
            }
            lemma_fields_keep_the_rest(blank, fs);
        }
        assert(goes_by(r, name));
        assert forall|i: int| 0 <= i < t implies !goes_by(#[trigger] after.records[i], name) by {
            assert(after.records[i] == s.records[i]);
            assert(!goes_by(s.records[i], name));
        }
        lemma_first_to_go_by(after.records, name, t);
        assert(update_refusal(r, fs, fingerprint, team) is None);
    }
}

pub proof fn lemma_first_to_go_by(records: Seq<Entry>, name: Seq<char>, t: int)
    requires
        0 <= t < records.len(),
        goes_by(records[t], name),
        forall|i: int| 0 <= i < t ==> !goes_by(#[trigger] records[i], name),
    ensures
        position_of(records, name) == t,
{
    lemma_position_of(records, name);
    let p = position_of(records, name);
    if p < t {
        assert(!goes_by(records[p], name));
    }
}

proof fn lemma_identifier(fs: Seq<Pair>)
    requires
        agreeing(fs),
        identifier(fs) is Some,
    ensures
        (named(fs, "hostname"@) && first_value(fs, "hostname"@) == identifier(fs)) || (named(
            fs,
            "alias"@,
        ) && first_value(fs, "alias"@) == identifier(fs)),
    decreases fs.len(),
{
    if fs[0].0 == "hostname"@ || fs[0].0 == "alias"@ {
        assert(named(fs, fs[0].0));
    } else {
        let rest = fs.drop_first();
        assert(agreeing(rest)) by {
            assert forall|i: int, j: int|
                0 <= i < rest.len() && 0 <= j < rest.len() && (#[trigger] rest[i]).0 == (
                #[trigger] rest[j]).0 implies rest[i].1 == rest[j].1 by {
                assert(fs[i + 1].0 == fs[j + 1].0);
            }
        }
        lemma_identifier(rest);
        lemma_first_value(rest, "hostname"@);
        lemma_first_value(rest, "alias"@);
        lemma_first_value(fs, "hostname"@);
        lemma_first_value(fs, "alias"@);
        if named(rest, "hostname"@) {
            let i = choose|i: int| 0 <= i < rest.len() && (#[trigger] rest[i]).0 == "hostname"@;
            assert(fs[i + 1].0 == "hostname"@);
        }
        if named(rest, "alias"@) {
            let i = choose|i: int| 0 <= i < rest.len() && (#[trigger] rest[i]).0 == "alias"@;
            assert(fs[i + 1].0 == "alias"@);
        }
    }
}

// ---------------------------------------------------------------------------
// Addresses
// ---------------------------------------------------------------------------

/// The addresses of a record are addresses, and none of a name occurs twice.
pub open spec fn sound(e: Entry) -> bool {
    &&& forall|k: Seq<char>| #[trigger]
        e.fields.contains_key(k) ==> field_fault(k, e.fields[k]) is None
    &&& forall|k: Seq<char>|
        is_address(k) ==> (#[trigger] values_of(e.multi, k)).no_duplicates()
    &&& forall|k: Seq<char>, j: int|
        is_address(k) && 0 <= j < values_of(e.multi, k).len() ==> field_fault(
            k,
            #[trigger] values_of(e.multi, k)[j],
        ) is None
}

/// The addresses of every record are addresses, and none of a name occurs
/// twice in a record.
pub open spec fn all_sound(s: Store) -> bool {
    forall|i: int| 0 <= i < s.records.len() ==> sound(#[trigger] s.records[i])
}

proof fn lemma_no_fault(fs: Seq<Pair>)
    requires
        first_field_fault(fs) is None,
    ensures
        forall|i: int| 0 <= i < fs.len() ==> field_fault((#[trigger] fs[i]).0, fs[i].1) is None,
    decreases fs.len(),
{
    if fs.len() > 0 {
        let rest = fs.drop_first();
        lemma_no_fault(rest);
        assert forall|i: int| 0 <= i < fs.len() implies field_fault(
            (#[trigger] fs[i]).0,
            fs[i].1,
        ) is None by {
            if i > 0 {
                assert(rest[i - 1] == fs[i]);
            }
        }
    }
}

proof fn lemma_sound_field(e: Entry, name: Seq<char>, value: Seq<char>)
    requires
        sound(e),
        field_fault(name, value) is None,
    ensures
        sound(with_field(e, name, value)),
{
    let r = with_field(e, name, value);
    if is_address(name) {
        let had = values_of(e.multi, name);
        assert forall|k: Seq<char>| is_address(k) implies (#[trigger] values_of(
            r.multi,
            k,
        )).no_duplicates() by {
            assert(values_of(e.multi, k).no_duplicates());
            if k == name {
                assert(values_of(r.multi, k) == add_once(had, value));
            } else {
                assert(values_of(r.multi, k) == values_of(e.multi, k));
            }
        }
        assert forall|k: Seq<char>, j: int|
            is_address(k) && 0 <= j < values_of(r.multi, k).len() implies field_fault(
            k,
            #[trigger] values_of(r.multi, k)[j],
        ) is None by {
            if k == name {
                assert(values_of(r.multi, k) == add_once(had, value));
                if j < had.len() {
                    assert(values_of(r.multi, k)[j] == values_of(e.multi, k)[j]);
                }
            } else {
                assert(values_of(r.multi, k) == values_of(e.multi, k));
                assert(field_fault(k, values_of(e.multi, k)[j]) is None);
            }
        }
        assert forall|k: Seq<char>| #[trigger] r.fields.contains_key(k) implies field_fault(
            k,
            r.fields[k],
        ) is None by {
            assert(e.fields.contains_key(k));
        }
    } else {
        assert forall|k: Seq<char>| #[trigger] r.fields.contains_key(k) implies field_fault(
            k,
            r.fields[k],
        ) is None by {
            if k != name {
                assert(e.fields.contains_key(k));
            }
        }
    }
}

proof fn lemma_sound_fields(e: Entry, fs: Seq<Pair>)
    requires
        sound(e),
        first_field_fault(fs) is None,
    ensures
        sound(with_fields(e, fs)),
        sound(refreshed_fields(e, fs)),
{
    lemma_no_fault(fs);
    lemma_sound_prefix(e, fs, fs.len() as int);
    assert(fs.take(fs.len() as int) =~= fs);
}

proof fn lemma_sound_prefix(e: Entry, fs: Seq<Pair>, n: int)
    requires
        sound(e),
        0 <= n <= fs.len(),
        forall|i: int| 0 <= i < fs.len() ==> field_fault((#[trigger] fs[i]).0, fs[i].1) is None,
    ensures
        sound(with_fields(e, fs.take(n))),
        sound(refreshed_fields(e, fs.take(n))),
    decreases n,
{
    if n > 0 {
        lemma_sound_prefix(e, fs, n - 1);
        assert(fs.take(n).drop_last() =~= fs.take(n - 1));
        assert(fs.take(n).last() == fs[n - 1]);
        assert(field_fault(fs[n - 1].0, fs[n - 1].1) is None);
        lemma_sound_field(with_fields(e, fs.take(n - 1)), fs[n - 1].0, fs[n - 1].1);
        lemma_sound_field(refreshed_fields(e, fs.take(n - 1)), fs[n - 1].0, fs[n - 1].1);
    }
}

proof fn lemma_sound_blank(e: Entry)
    requires
        e.fields == Map::<Seq<char>, Seq<char>>::empty(),
        e.multi == Map::<Seq<char>, Seq<Seq<char>>>::empty(),
    ensures
        sound(e),
{
    assert forall|k: Seq<char>| is_address(k) implies (#[trigger] values_of(
        e.multi,
        k,
    )).no_duplicates() by {
        assert(values_of(e.multi, k) =~= Seq::empty());
    }
}

/// Nothing that is added, upserted, changed or deleted brings a record an
/// address that is none, or the same address twice.
pub proof fn law_addresses_sound(
    s: Store,
    fs: Seq<Pair>,
    picks: Seq<Pick>,
    fingerprint: Option<Seq<char>>,
    team: Option<Seq<char>>,
    teams: Seq<Seq<char>>,
    roles: Seq<Seq<char>>,
    now: Seq<char>,
)
    requires
        all_sound(s),
    ensures
        add_outcome(s, fs, fingerprint, team, now) matches Ok(after) ==> all_sound(after),
        upsert_outcome(s, fs, fingerprint, team, now) matches Ok((after, done)) ==> all_sound(
            after,
        ),
        change_outcome(s, picks, fs, fingerprint, teams) matches Ok((after, n)) ==> all_sound(
            after,
        ),
        delete_outcome(s, picks, fingerprint, teams, roles) matches Ok((after, n)) ==> all_sound(
            after,
        ),
{
    lemma_names_differ();
    if first_field_fault(fs) is None {
        let blank = Entry {
            id: s.next_id,
            kind: None,
            fields: Map::empty(),
            multi: Map::empty(),
            fingerprint,
            team,
        };
        lemma_sound_blank(blank);
        lemma_sound_fields(blank, fs);
        let made = new_entry(s.next_id, fs, fingerprint, team, now);
        assert(sound(made)) by {
            let filled = with_fields(blank, fs);
            assert forall|k: Seq<char>| #[trigger] made.fields.contains_key(k) implies field_fault(
                k,
                made.fields[k],
            ) is None by {
                if k != "last_seen_at"@ && k != "created_at"@ {
                    assert(filled.fields.contains_key(k));
                }
            }
        }
        if let Ok(after) = add_outcome(s, fs, fingerprint, team, now) {
            assert forall|i: int| 0 <= i < after.records.len() implies sound(
                #[trigger] after.records[i],
            ) by {
                if i < s.records.len() {
                    assert(after.records[i] == s.records[i]);
                }
            }
        }
        let t = upsert_target(s.records, fs);
        lemma_position(s.records, fs);
        if t < s.records.len() {
            let e = s.records[t];
            assert(sound(e));
            let owned = Entry {
                fingerprint: if e.fingerprint is None {
                    fingerprint
                } else {
                    e.fingerprint
                },
                team: if e.team is None {
                    team
                } else {
                    e.team
                },
                ..e
            };
            assert(sound(owned));
            lemma_sound_fields(owned, fs);
            let fresh = refreshed(e, fs, fingerprint, team, now);
            assert(sound(fresh)) by {
                let filled = refreshed_fields(owned, fs);
                assert forall|k: Seq<char>| #[trigger] fresh.fields.contains_key(k) implies field_fault(
                    k,
                    fresh.fields[k],
                ) is None by {
                    if k != "last_seen_at"@ {
                        assert(filled.fields.contains_key(k));
                    }
                }
            }
            if let Ok((after, done)) = upsert_outcome(s, fs, fingerprint, team, now) {
                assert forall|i: int| 0 <= i < after.records.len() implies sound(
                    #[trigger] after.records[i],
                ) by {
                    if i != t {
                        assert(after.records[i] == s.records[i]);
                    }
                }
            }
        }
        if let Ok((after, n)) = change_outcome(s, picks, fs, fingerprint, teams) {
            assert forall|i: int| 0 <= i < after.records.len() implies sound(
                #[trigger] after.records[i],
            ) by {
                assert(sound(s.records[i]));
                lemma_sound_fields(s.records[i], fs);
            }
        }
    }
    if let Ok((after, n)) = delete_outcome(s, picks, fingerprint, teams, roles) {
        let gone = chosen(
            s.records,
            |e: Entry| targeted(e, picks, fingerprint, teams, roles.contains("admin"@)),
        )->Ok_0;
        let keep = |e: Entry| !ids_of(gone).contains(e.id);
        lemma_filter_members(s.records, keep);
        assert forall|i: int| 0 <= i < after.records.len() implies sound(
            #[trigger] after.records[i],
        ) by {
            assert(after.records.contains(after.records[i]));
            let j = choose|j: int| 0 <= j < s.records.len() && s.records[j] == after.records[i];
            assert(sound(s.records[j]));
        }
    }
}

/// Setting fields takes no address away: those of a name stay, in their order,
/// and new ones follow.
pub proof fn law_addresses_stay(e: Entry, fs: Seq<Pair>, name: Seq<char>)
    ensures
        values_of(e.multi, name).is_prefix_of(values_of(with_fields(e, fs).multi, name)),
        values_of(e.multi, name).is_prefix_of(values_of(refreshed_fields(e, fs).multi, name)),
    decreases fs.len(),
{
    if fs.len() > 0 {
        law_addresses_stay(e, fs.drop_last(), name);
    }
}

/// Setting the same fields of a record again changes nothing more.
pub proof fn law_setting_again(e: Entry, fs: Seq<Pair>)
    ensures
        refreshed_fields(refreshed_fields(e, fs), fs) == refreshed_fields(e, fs),
{
    let r = refreshed_fields(e, fs);
    let again = refreshed_fields(r, fs);
    lemma_fields_keep_the_rest(r, fs);
    lemma_names_differ();
    assert forall|k: Seq<char>|
        (#[trigger] again.fields.contains_key(k)) == r.fields.contains_key(k) && again.fields[k]
            == r.fields[k] by {
        if is_address(k) {
            lemma_address_fields(e, fs, k);
            lemma_address_fields(r, fs, k);
        } else if named(fs, k) && k == "source"@ {
            lemma_source_set(e, fs);
            lemma_source_stays(r, fs);
        } else if named(fs, k) {
            lemma_last_prevails(e, r, fs, k);
        } else {
            lemma_elsewhere(r, fs, k);
        }
    }
    assert(again.fields =~= r.fields);
    lemma_all_listed(e, fs);
    lemma_listed_again(r, fs);
}

proof fn lemma_address_fields(e: Entry, fs: Seq<Pair>, k: Seq<char>)
    requires
        is_address(k),
    ensures
        refreshed_fields(e, fs).fields.contains_key(k) == e.fields.contains_key(k),
        refreshed_fields(e, fs).fields[k] == e.fields[k],
    decreases fs.len(),
{
    if fs.len() > 0 {
        lemma_address_fields(e, fs.drop_last(), k);
    }
}

proof fn lemma_source_set(e: Entry, fs: Seq<Pair>)
    requires
        named(fs, "source"@),
    ensures
        refreshed_fields(e, fs).fields.contains_key("source"@),
    decreases fs.len(),
{
    lemma_names_differ();
    if fs.len() > 0 {
        lemma_named_front(fs, "source"@);
        if fs.last().0 != "source"@ {
            lemma_source_set(e, fs.drop_last());
        }
    }
}

proof fn lemma_last_prevails(a: Entry, b: Entry, fs: Seq<Pair>, k: Seq<char>)
    requires
        named(fs, k),
        !is_address(k),
        k != "source"@,
    ensures
        refreshed_fields(a, fs).fields.contains_key(k),
        refreshed_fields(b, fs).fields.contains_key(k),
        refreshed_fields(a, fs).fields[k] == refreshed_fields(b, fs).fields[k],
    decreases fs.len(),
{
    if fs.len() > 0 {
        lemma_named_front(fs, k);
        if fs.last().0 != k {
            lemma_last_prevails(a, b, fs.drop_last(), k);
        }
    }
}

proof fn lemma_all_listed(e: Entry, fs: Seq<Pair>)
    ensures
        forall|i: int|
            0 <= i < fs.len() && is_address((#[trigger] fs[i]).0) ==> refreshed_fields(
                e,
                fs,
            ).multi.contains_key(fs[i].0) && refreshed_fields(e, fs).multi[fs[i].0].contains(fs[i].1),
    decreases fs.len(),
{
    if fs.len() > 0 {
        let front = fs.drop_last();
        let before = refreshed_fields(e, front);
        let after = refreshed_fields(e, fs);
        lemma_all_listed(e, front);
        lemma_names_differ();
        assert forall|i: int| 0 <= i < fs.len() && is_address((#[trigger] fs[i]).0) implies after.multi.contains_key(
        fs[i].0) && after.multi[fs[i].0].contains(fs[i].1) by {
            let last = fs.last();
            let had = values_of(before.multi, last.0);
            if i < front.len() {
                assert(front[i] == fs[i]);
                if last.0 == fs[i].0 && is_address(last.0) {
                    let j = choose|j: int| 0 <= j < had.len() && had[j] == fs[i].1;
                    assert(add_once(had, last.1)[j] == fs[i].1);
                }
            } else {
                if !had.contains(last.1) {
                    assert(add_once(had, last.1)[had.len() as int] == last.1);
                }
            }
        }
    }
}

proof fn lemma_listed_again(r: Entry, fs: Seq<Pair>)
    requires
        forall|i: int|
            0 <= i < fs.len() && is_address((#[trigger] fs[i]).0) ==> r.multi.contains_key(fs[i].0)
                && r.multi[fs[i].0].contains(fs[i].1),
    ensures
        refreshed_fields(r, fs).multi == r.multi,
    decreases fs.len(),
{
    if fs.len() > 0 {
        let front = fs.drop_last();
        assert forall|i: int| 0 <= i < front.len() && is_address((#[trigger] front[i]).0) implies r.multi.contains_key(
        front[i].0) && r.multi[front[i].0].contains(front[i].1) by {
            assert(front[i] == fs[i]);
        }
        lemma_listed_again(r, front);
        lemma_names_differ();
        if is_address(fs.last().0) {
            assert(fs[fs.len() - 1] == fs.last());
            assert(refreshed_fields(r, fs).multi =~= r.multi);
        }
    }
}

} // verus!
