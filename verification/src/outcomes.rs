//! What each operation on the directory comes to: who may do what, which
//! requests are refused and why, and what a record holds afterwards.

use vstd::prelude::*;

use crate::address::ip_of;
use crate::address::mac_octets;
use crate::error::Failure;
use crate::laws::distinct_ids;
use crate::laws::law_change_exact;
use crate::laws::lemma_elsewhere;
use crate::laws::lemma_filter_agrees;
use crate::laws::lemma_first_to_go_by;
use crate::laws::lemma_names_differ;
use crate::laws::lemma_no_failure;
use crate::laws::lemma_position_of;
use crate::laws::lemma_source_stays;
use crate::laws::named;
use crate::record::Entry;
use crate::record::Kind;
use crate::record::UpsertOutcome;
use crate::record::add_once;
use crate::record::is_address;
use crate::record::kind_of;
use crate::record::values_of;
use crate::record::with_fields;
use crate::selection::Pick;
use crate::selection::answers_all;
use crate::store::Pair;
use crate::store::Store;
use crate::store::add_outcome;
use crate::store::all_same;
use crate::store::change_outcome;
use crate::store::chosen;
use crate::store::delete_outcome;
use crate::store::field_fault;
use crate::store::first_field_fault;
use crate::store::first_value;
use crate::store::goes_by;
use crate::store::identifier;
use crate::store::in_view;
use crate::store::lemma_chosen_failure;
use crate::store::lemma_chosen_step;
use crate::store::owned_by;
use crate::store::picked;
use crate::store::query_outcome;
use crate::store::refreshed_fields;
use crate::store::targeted;
use crate::store::touches_type;
use crate::store::upsert_outcome;
use crate::store::upsert_target;
use crate::text::ascii_lower;
use crate::text::trim;

verus! {

// ---------------------------------------------------------------------------
// Who may delete and change
// ---------------------------------------------------------------------------

/// Whether the holder of a key may act on a record: the record bears the
/// fingerprint of the key, or it belongs to one of the teams of its holder, or
/// it belongs to nobody.
pub open spec fn entitled(
    e: Entry,
    fingerprint: Option<Seq<char>>,
    teams: Seq<Seq<char>>,
) -> bool {
    match (e.fingerprint, e.team) {
        (None, None) => true,
        (Some(f), None) => fingerprint == Some(f),
        (None, Some(t)) => exists|i: int| 0 <= i < teams.len() && #[trigger] teams[i] == t,
        (Some(f), Some(t)) => fingerprint == Some(f) || exists|i: int|
            0 <= i < teams.len() && #[trigger] teams[i] == t,
    }
}

/// Every record can be held against the selections.
pub open spec fn no_fault_in(records: Seq<Entry>, picks: Seq<Pick>) -> bool {
    forall|i: int| 0 <= i < records.len() ==> answers_all(#[trigger] records[i], picks) is Ok
}

/// Every record that answers the selections is one that the holder of the key
/// may act on.
pub open spec fn entitled_to_all(
    records: Seq<Entry>,
    picks: Seq<Pick>,
    fingerprint: Option<Seq<char>>,
    teams: Seq<Seq<char>>,
) -> bool {
    forall|i: int|
        0 <= i < records.len() && answers_all(#[trigger] records[i], picks) == Ok::<bool, Failure>(
            true,
        ) ==> entitled(records[i], fingerprint, teams)
}

proof fn lemma_targets(
    records: Seq<Entry>,
    picks: Seq<Pick>,
    fingerprint: Option<Seq<char>>,
    teams: Seq<Seq<char>>,
    admin: bool,
)
    requires
        no_fault_in(records, picks),
    ensures
        chosen(records, |e: Entry| targeted(e, picks, fingerprint, teams, admin)) is Ok <==> admin
            || entitled_to_all(records, picks, fingerprint, teams),
        chosen(records, |e: Entry| targeted(e, picks, fingerprint, teams, admin)) matches Err(f)
            ==> f == Failure::Unauthorized,
{
    let verdict = |e: Entry| targeted(e, picks, fingerprint, teams, admin);
    lemma_no_failure(records, verdict);
    assert forall|e: Entry| entitled(e, fingerprint, teams) == #[trigger] owned_by(
        e,
        fingerprint,
        teams,
    ) by {
        lemma_owned(e, fingerprint, teams);
    }
    if chosen(records, verdict) is Ok {
        assert forall|i: int|
            0 <= i < records.len() && answers_all(#[trigger] records[i], picks) == Ok::<
                bool,
                Failure,
            >(true) && !admin implies entitled(records[i], fingerprint, teams) by {
            assert(verdict(records[i]) is Ok);
        }
    } else {
        lemma_failure_of_one(records, verdict);
        let i = choose|i: int|
            0 <= i < records.len() && #[trigger] verdict(records[i]) == Err::<bool, Failure>(
                chosen(records, verdict)->Err_0,
            );
        assert(answers_all(records[i], picks) is Ok);
    }
    if admin || entitled_to_all(records, picks, fingerprint, teams) {
        assert forall|i: int| 0 <= i < records.len() implies verdict(
            #[trigger] records[i],
        ) is Ok by {
            assert(answers_all(records[i], picks) is Ok);
        }
    }
}

proof fn lemma_failure_of_one(
    records: Seq<Entry>,
    verdict: spec_fn(Entry) -> Result<bool, Failure>,
)
    requires
        chosen(records, verdict) is Err,
    ensures
        exists|i: int|
            0 <= i < records.len() && #[trigger] verdict(records[i]) == Err::<bool, Failure>(
                chosen(records, verdict)->Err_0,
            ),
    decreases records.len(),
{
    if records.len() > 0 {
        let front = records.drop_last();
        assert(records.map_values(verdict).drop_last() =~= front.map_values(verdict));
        assert(records.map_values(verdict).last() == verdict(records.last()));
        if chosen(front, verdict) is Err {
            lemma_failure_of_one(front, verdict);
            let i = choose|i: int|
                0 <= i < front.len() && #[trigger] verdict(front[i]) == Err::<bool, Failure>(
                    chosen(front, verdict)->Err_0,
                );
            assert(verdict(records[i]) == verdict(front[i]));
        } else {
            assert(verdict(records[records.len() - 1]) is Err);
        }
    }
}

/// Deleting succeeds exactly where every record that answers is the caller's to
/// delete, by the fingerprint of the record, by its team or for want of an
/// owner, or where the caller is an administrator. Otherwise it is refused for
/// want of authorization.
pub proof fn law_who_may_delete(
    s: Store,
    picks: Seq<Pick>,
    fingerprint: Option<Seq<char>>,
    teams: Seq<Seq<char>>,
    roles: Seq<Seq<char>>,
)
    requires
        no_fault_in(s.records, picks),
    ensures
        delete_outcome(s, picks, fingerprint, teams, roles) is Ok <==> roles.contains("admin"@)
            || entitled_to_all(s.records, picks, fingerprint, teams),
        delete_outcome(s, picks, fingerprint, teams, roles) matches Err(f) ==> f
            == Failure::Unauthorized,
{
    lemma_targets(s.records, picks, fingerprint, teams, roles.contains("admin"@));
}

/// A pair that gives a name an address which is none.
pub open spec fn bad_address(name: Seq<char>, value: Seq<char>) -> bool {
    ||| (name == "ip"@ || name == "ip_addr"@) && ip_of(value) is None
    ||| (name == "mac"@ || name == "mac_addr"@) && mac_octets(value) is None
}

/// No pair names the type, in whatever case it is written.
pub open spec fn type_untouched(mods: Seq<Pair>) -> bool {
    forall|j: int| 0 <= j < mods.len() ==> ascii_lower((#[trigger] mods[j]).0) != "type"@
}

/// No pair gives an address that is none.
pub open spec fn good_addresses(fs: Seq<Pair>) -> bool {
    forall|j: int| 0 <= j < fs.len() ==> !bad_address((#[trigger] fs[j]).0, fs[j].1)
}

/// Changing succeeds exactly where no modification touches the type, in
/// whatever case it is written, none gives an address that is none, and every
/// record that answers is the caller's to change, by its fingerprint, by its
/// team or for want of an owner. No role makes up for that. Otherwise it is
/// refused for want of authorization, if nothing is wrong with the
/// modifications.
pub proof fn law_who_may_change(
    s: Store,
    picks: Seq<Pick>,
    mods: Seq<Pair>,
    fingerprint: Option<Seq<char>>,
    teams: Seq<Seq<char>>,
)
    requires
        no_fault_in(s.records, picks),
    ensures
        change_outcome(s, picks, mods, fingerprint, teams) is Ok <==> {
            &&& type_untouched(mods)
            &&& good_addresses(mods)
            &&& entitled_to_all(s.records, picks, fingerprint, teams)
        },
        change_outcome(s, picks, mods, fingerprint, teams) == Err::<(Store, nat), Failure>(
            Failure::Unauthorized,
        ) <==> {
            &&& type_untouched(mods)
            &&& good_addresses(mods)
            &&& !entitled_to_all(s.records, picks, fingerprint, teams)
        },
{
    assert(touches_type(mods) == !type_untouched(mods));
    law_bad_address_refused(mods);
    if first_field_fault(mods) is Some {
        lemma_fault_is_of_argument(mods);
    }
    lemma_targets(s.records, picks, fingerprint, teams, false);
}

proof fn lemma_fault_is_of_argument(fs: Seq<Pair>)
    requires
        first_field_fault(fs) is Some,
    ensures
        first_field_fault(fs)->0 is InvalidArgument,
    decreases fs.len(),
{
    if fs.len() > 0 && field_fault(fs[0].0, fs[0].1) is None {
        lemma_fault_is_of_argument(fs.drop_first());
    }
}

/// A modification of the type is refused, whatever else is asked for and
/// whoever asks.
pub proof fn law_type_cannot_be_changed(
    s: Store,
    picks: Seq<Pick>,
    mods: Seq<Pair>,
    fingerprint: Option<Seq<char>>,
    teams: Seq<Seq<char>>,
    j: int,
)
    requires
        0 <= j < mods.len(),
        ascii_lower(mods[j].0) == "type"@,
    ensures
        change_outcome(s, picks, mods, fingerprint, teams) == Err::<(Store, nat), Failure>(
            Failure::InvalidArgument(
                "type cannot be modified via change - it is set once at record creation"@,
            ),
        ),
{
}

/// A bad address among the modifications is refused before anything is looked
/// up, with what is wrong with the first.
pub proof fn law_change_with_bad_address(
    s: Store,
    picks: Seq<Pick>,
    mods: Seq<Pair>,
    fingerprint: Option<Seq<char>>,
    teams: Seq<Seq<char>>,
)
    requires
        type_untouched(mods),
        !good_addresses(mods),
    ensures
        first_field_fault(mods) is Some,
        change_outcome(s, picks, mods, fingerprint, teams) == Err::<(Store, nat), Failure>(
            first_field_fault(mods)->0,
        ),
{
    law_bad_address_refused(mods);
}

/// The first record that stands in the way decides what is reported: a query
/// fails by the first record that it looks at and that cannot be held against
/// the selections. A deletion and a change fail by the first record of that
/// kind, or by the first that answers and is not the caller's to act on,
/// whichever comes first.
pub proof fn law_first_in_the_way(
    s: Store,
    picks: Seq<Pick>,
    kind: Option<Kind>,
    mods: Seq<Pair>,
    fingerprint: Option<Seq<char>>,
    teams: Seq<Seq<char>>,
    roles: Seq<Seq<char>>,
    i: int,
    f: Failure,
)
    requires
        0 <= i < s.records.len(),
    ensures
        query_outcome(s.records.take(i), picks, kind) is Ok && looked_at(s.records[i], picks, kind)
            && answers_all(s.records[i], picks) == Err::<bool, Failure>(f) ==> query_outcome(
            s.records,
            picks,
            kind,
        ) == Err::<Seq<Entry>, Failure>(f),
        no_fault_in(s.records.take(i), picks) && answers_all(s.records[i], picks) == Err::<
            bool,
            Failure,
        >(f) ==> {
            &&& roles.contains("admin"@) || entitled_to_all(
                s.records.take(i),
                picks,
                fingerprint,
                teams,
            ) ==> delete_outcome(s, picks, fingerprint, teams, roles) == Err::<
                (Store, nat),
                Failure,
            >(f)
            &&& type_untouched(mods) && good_addresses(mods) && entitled_to_all(
                s.records.take(i),
                picks,
                fingerprint,
                teams,
            ) ==> change_outcome(s, picks, mods, fingerprint, teams) == Err::<
                (Store, nat),
                Failure,
            >(f)
        },
        no_fault_in(s.records.take(i), picks) && answers_all(s.records[i], picks) == Ok::<
            bool,
            Failure,
        >(true) && !entitled(s.records[i], fingerprint, teams) && entitled_to_all(
            s.records.take(i),
            picks,
            fingerprint,
            teams,
        ) ==> {
            &&& !roles.contains("admin"@) ==> delete_outcome(s, picks, fingerprint, teams, roles)
                == Err::<(Store, nat), Failure>(Failure::Unauthorized)
            &&& type_untouched(mods) && good_addresses(mods) ==> change_outcome(
                s,
                picks,
                mods,
                fingerprint,
                teams,
            ) == Err::<(Store, nat), Failure>(Failure::Unauthorized)
        },
{
    let before = s.records.take(i);
    let e = s.records[i];
    let admin = roles.contains("admin"@);
    lemma_in_view(e, picks, kind);
    lemma_owned(e, fingerprint, teams);
    lemma_stopped_at(s.records, |x: Entry| picked(x, picks, kind), i);
    lemma_stopped_at(s.records, |x: Entry| targeted(x, picks, fingerprint, teams, admin), i);
    lemma_stopped_at(s.records, |x: Entry| targeted(x, picks, fingerprint, teams, false), i);
    if no_fault_in(before, picks) {
        lemma_targets(before, picks, fingerprint, teams, admin);
        lemma_targets(before, picks, fingerprint, teams, false);
    }
    assert(touches_type(mods) == !type_untouched(mods));
    law_bad_address_refused(mods);
}

proof fn lemma_stopped_at(
    records: Seq<Entry>,
    verdict: spec_fn(Entry) -> Result<bool, Failure>,
    i: int,
)
    requires
        0 <= i < records.len(),
    ensures
        chosen(records.take(i), verdict) is Ok ==> (verdict(records[i]) matches Err(f) ==> chosen(
            records,
            verdict,
        ) == Err::<Seq<Entry>, Failure>(f)),
{
    if chosen(records.take(i), verdict) is Ok && verdict(records[i]) is Err {
        lemma_chosen_step(records, verdict, i);
        lemma_chosen_failure(records, verdict, i + 1);
    }
}

proof fn lemma_in_view(e: Entry, picks: Seq<Pick>, kind: Option<Kind>)
    ensures
        looked_at(e, picks, kind) == in_view(e, picks, kind),
{
}

proof fn lemma_owned(e: Entry, fingerprint: Option<Seq<char>>, teams: Seq<Seq<char>>)
    ensures
        entitled(e, fingerprint, teams) == owned_by(e, fingerprint, teams),
{
    if e.team is Some && teams.contains(e.team->0) {
        let i = choose|i: int| 0 <= i < teams.len() && teams[i] == e.team->0;
        assert(teams[i] == e.team->0);
    }
}

/// The number that a deletion or a change reports is that of the records that
/// answer the selections: what a query that looks at all records would give.
pub proof fn law_counts(
    s: Store,
    picks: Seq<Pick>,
    mods: Seq<Pair>,
    fingerprint: Option<Seq<char>>,
    teams: Seq<Seq<char>>,
    roles: Seq<Seq<char>>,
)
    ensures
        delete_outcome(s, picks, fingerprint, teams, roles) matches Ok((after, n)) ==> n
            == s.records.filter(|e: Entry| answers_all(e, picks) == Ok::<bool, Failure>(true)).len(),
        change_outcome(s, picks, mods, fingerprint, teams) matches Ok((after, n)) ==> n
            == s.records.filter(|e: Entry| answers_all(e, picks) == Ok::<bool, Failure>(true)).len(),
{
    lemma_targets_counted(s.records, picks, fingerprint, teams, roles.contains("admin"@));
    lemma_targets_counted(s.records, picks, fingerprint, teams, false);
}

proof fn lemma_targets_counted(
    records: Seq<Entry>,
    picks: Seq<Pick>,
    fingerprint: Option<Seq<char>>,
    teams: Seq<Seq<char>>,
    admin: bool,
)
    ensures
        chosen(records, |e: Entry| targeted(e, picks, fingerprint, teams, admin)) matches Ok(hit)
            ==> hit == records.filter(
            |e: Entry| answers_all(e, picks) == Ok::<bool, Failure>(true),
        ),
{
    let verdict = |e: Entry| targeted(e, picks, fingerprint, teams, admin);
    if chosen(records, verdict) is Ok {
        lemma_no_failure(records, verdict);
        let f = |e: Entry| verdict(e) == Ok::<bool, Failure>(true);
        let g = |e: Entry| answers_all(e, picks) == Ok::<bool, Failure>(true);
        assert forall|i: int| 0 <= i < records.len() implies f(#[trigger] records[i]) == g(
            records[i],
        ) by {
            assert(verdict(records[i]) is Ok);
        }
        lemma_filter_agrees(records, f, g);
    }
}

// ---------------------------------------------------------------------------
// What is wrong with fields
// ---------------------------------------------------------------------------

/// A list of fields is faulty exactly where it gives an IP address, under `ip`
/// or `ip_addr`, or a MAC address, under `mac` or `mac_addr`, that is none.
pub proof fn law_bad_address_refused(fs: Seq<Pair>)
    ensures
        first_field_fault(fs) is None <==> good_addresses(fs),
    decreases fs.len(),
{
    if fs.len() > 0 {
        let rest = fs.drop_first();
        law_bad_address_refused(rest);
        lemma_one_address(fs[0].0, fs[0].1);
        if good_addresses(fs) {
            assert forall|i: int| 0 <= i < rest.len() implies !bad_address(
                (#[trigger] rest[i]).0,
                rest[i].1,
            ) by {
                assert(rest[i] == fs[i + 1]);
            }
            assert(!bad_address(fs[0].0, fs[0].1));
        }
        if first_field_fault(fs) is None {
            assert forall|i: int| 0 <= i < fs.len() implies !bad_address(
                (#[trigger] fs[i]).0,
                fs[i].1,
            ) by {
                if i > 0 {
                    assert(rest[i - 1] == fs[i]);
                }
            }
        }
    }
}

/// The fault that is reported is that of the first field with a bad address,
/// and names the field and its value.
pub proof fn law_first_bad_address(fs: Seq<Pair>, i: int)
    requires
        0 <= i < fs.len(),
        bad_address(fs[i].0, fs[i].1),
        good_addresses(fs.take(i)),
    ensures
        first_field_fault(fs) == Some(
            Failure::InvalidArgument(
                (if fs[i].0 == "ip"@ || fs[i].0 == "ip_addr"@ {
                    "invalid IP address '"@
                } else {
                    "invalid MAC address '"@
                }) + fs[i].1 + "' for field '"@ + fs[i].0 + "'"@,
            ),
        ),
    decreases fs.len(),
{
    lemma_address_names();
    if i > 0 {
        let rest = fs.drop_first();
        assert(fs.take(i)[0] == fs[0]);
        lemma_one_address(fs[0].0, fs[0].1);
        assert(rest[i - 1] == fs[i]);
        assert forall|j: int| 0 <= j < rest.take(i - 1).len() implies !bad_address(
            (#[trigger] rest.take(i - 1)[j]).0,
            rest.take(i - 1)[j].1,
        ) by {
            assert(rest.take(i - 1)[j] == fs.take(i)[j + 1]);
        }
        law_first_bad_address(rest, i - 1);
    }
}

proof fn lemma_one_address(name: Seq<char>, value: Seq<char>)
    ensures
        field_fault(name, value) is Some <==> bad_address(name, value),
{
    lemma_address_names();
}

proof fn lemma_address_names()
    ensures
        "ip"@ != "mac"@,
        "ip"@ != "mac_addr"@,
        "ip_addr"@ != "mac"@,
        "ip_addr"@ != "mac_addr"@,
        "ip"@ != "ip_addr"@,
        "mac"@ != "mac_addr"@,
{
    reveal_strlit("ip");
    reveal_strlit("mac");
    reveal_strlit("ip_addr");
    reveal_strlit("mac_addr");
    assert("ip"@.len() == 2);
    assert("mac"@.len() == 3);
    assert("ip_addr"@.len() == 7);
    assert("mac_addr"@.len() == 8);
}

// ---------------------------------------------------------------------------
// Adding
// ---------------------------------------------------------------------------

/// Where a name is given first in a list of fields.
pub open spec fn first_given(fs: Seq<Pair>, name: Seq<char>, i: int) -> bool {
    &&& 0 <= i < fs.len()
    &&& fs[i].0 == name
    &&& forall|j: int| 0 <= j < i ==> (#[trigger] fs[j]).0 != name
}

/// Where a name is given last in a list of fields.
pub open spec fn last_given(fs: Seq<Pair>, name: Seq<char>, i: int) -> bool {
    &&& 0 <= i < fs.len()
    &&& fs[i].0 == name
    &&& forall|j: int| i < j < fs.len() ==> (#[trigger] fs[j]).0 != name
}

/// A record is added exactly where a type is given, the first that is given is
/// not blank, and no field gives an address that is none. The missing type is
/// reported before a bad address.
pub proof fn law_what_can_be_added(
    s: Store,
    fs: Seq<Pair>,
    fingerprint: Option<Seq<char>>,
    team: Option<Seq<char>>,
    now: Seq<char>,
)
    ensures
        add_outcome(s, fs, fingerprint, team, now) is Ok <==> {
            &&& exists|i: int| #[trigger]
                first_given(fs, "type"@, i) && trim(fs[i].1).len() > 0
            &&& good_addresses(fs)
        },
        add_outcome(s, fs, fingerprint, team, now) == Err::<Store, Failure>(
            Failure::InvalidArgument("a 'type' field is required (e.g. type=machine)"@),
        ) <== !named(fs, "type"@) || exists|i: int| #[trigger]
            first_given(fs, "type"@, i) && trim(fs[i].1).len() == 0,
        (exists|i: int| #[trigger] first_given(fs, "type"@, i) && trim(fs[i].1).len() > 0)
            && first_field_fault(fs) is Some ==> add_outcome(s, fs, fingerprint, team, now) == Err::<
            Store,
            Failure,
        >(first_field_fault(fs)->0),
{
    law_bad_address_refused(fs);
    lemma_first_given(fs, "type"@);
    assert(trim(Seq::<char>::empty()).len() == 0);
}

proof fn lemma_first_given(fs: Seq<Pair>, name: Seq<char>)
    ensures
        first_value(fs, name) is Some <==> named(fs, name),
        first_value(fs, name) is Some ==> exists|i: int| #[trigger] first_given(fs, name, i),
        forall|i: int| #[trigger]
            first_given(fs, name, i) ==> first_value(fs, name) == Some(fs[i].1),
    decreases fs.len(),
{
    if fs.len() > 0 {
        let rest = fs.drop_first();
        lemma_first_given(rest, name);
        if fs[0].0 == name {
            assert(first_given(fs, name, 0));
        } else {
            if exists|i: int| #[trigger] first_given(rest, name, i) {
                let i = choose|i: int| #[trigger] first_given(rest, name, i);
                assert forall|j: int| 0 <= j < i + 1 implies (#[trigger] fs[j]).0 != name by {
                    if j > 0 {
                        assert(rest[j - 1] == fs[j]);
                    }
                }
                assert(first_given(fs, name, i + 1));
                assert(fs[i + 1].0 == name);
            }
            if named(fs, name) {
                let i = choose|i: int| 0 <= i < fs.len() && (#[trigger] fs[i]).0 == name;
                assert(rest[i - 1].0 == name);
            }
            assert forall|i: int| #[trigger] first_given(fs, name, i) implies first_value(fs, name)
                == Some(fs[i].1) by {
                assert forall|j: int| 0 <= j < i - 1 implies (#[trigger] rest[j]).0 != name by {
                    assert(rest[j] == fs[j + 1]);
                }
                assert(rest[i - 1] == fs[i]);
                assert(first_given(rest, name, i - 1));
            }
        }
    }
}

/// What a new record holds. It has the next number, belongs to whoever added
/// it, and is of the kind of its type. Of each name the last value that was
/// given prevails, and a name that was not given has none. It is stamped with
/// the time it was added at, which is also when it was created, unless that is
/// given.
pub proof fn law_added_record(
    s: Store,
    fs: Seq<Pair>,
    fingerprint: Option<Seq<char>>,
    team: Option<Seq<char>>,
    now: Seq<char>,
    name: Seq<char>,
    i: int,
)
    requires
        name != "ip_addr"@,
        name != "mac_addr"@,
    ensures
        add_outcome(s, fs, fingerprint, team, now) matches Ok(after) ==> {
            let e = after.records.last();
            &&& after.records.len() == s.records.len() + 1
            &&& after.records.drop_last() == s.records
            &&& after.next_id == s.next_id + 1
            &&& e.id == s.next_id
            &&& e.fingerprint == fingerprint
            &&& e.team == team
            &&& e.fields.contains_key("last_seen_at"@) && e.fields["last_seen_at"@] == now
            &&& e.fields.contains_key("created_at"@)
            &&& !named(fs, "created_at"@) ==> e.fields["created_at"@] == now
            &&& last_given(fs, name, i) && name != "last_seen_at"@ ==> e.fields.contains_key(name)
                && e.fields[name] == fs[i].1
            &&& !named(fs, name) && name != "last_seen_at"@ && name != "created_at"@
                ==> !e.fields.contains_key(name)
            &&& last_given(fs, "type"@, i) ==> e.kind == Some(kind_of(fs[i].1))
            &&& !e.fields.contains_key("ip_addr"@) && !e.fields.contains_key("mac_addr"@)
        },
{
    lemma_names_differ();
    if let Ok(after) = add_outcome(s, fs, fingerprint, team, now) {
        let blank = Entry {
            id: s.next_id,
            kind: None,
            fields: Map::empty(),
            multi: Map::empty(),
            fingerprint,
            team,
        };
        assert(after.records.drop_last() =~= s.records);
        lemma_set_fields_keep(blank, fs);
        lemma_last_set(blank, fs, name, i);
        lemma_last_set(blank, fs, "type"@, i);
        lemma_last_set(blank, fs, "created_at"@, i);
        lemma_no_plain(blank, fs);
        if !named(fs, name) {
            lemma_elsewhere(blank, fs, name);
        }
        if !named(fs, "created_at"@) {
            lemma_elsewhere(blank, fs, "created_at"@);
        }
    }
}

proof fn lemma_set_fields_keep(e: Entry, fs: Seq<Pair>)
    ensures
        with_fields(e, fs).id == e.id,
        with_fields(e, fs).kind == e.kind,
        with_fields(e, fs).fingerprint == e.fingerprint,
        with_fields(e, fs).team == e.team,
    decreases fs.len(),
{
    if fs.len() > 0 {
        lemma_set_fields_keep(e, fs.drop_last());
    }
}

proof fn lemma_no_plain(e: Entry, fs: Seq<Pair>)
    ensures
        with_fields(e, fs).fields.contains_key("ip_addr"@) == e.fields.contains_key("ip_addr"@),
        with_fields(e, fs).fields.contains_key("mac_addr"@) == e.fields.contains_key("mac_addr"@),
    decreases fs.len(),
{
    if fs.len() > 0 {
        lemma_no_plain(e, fs.drop_last());
    }
}

proof fn lemma_last_set(e: Entry, fs: Seq<Pair>, name: Seq<char>, i: int)
    requires
        !is_address(name),
    ensures
        last_given(fs, name, i) ==> with_fields(e, fs).fields.contains_key(name) && with_fields(
            e,
            fs,
        ).fields[name] == fs[i].1,
        last_given(fs, name, i) && name != "source"@ ==> refreshed_fields(
            e,
            fs,
        ).fields.contains_key(name) && refreshed_fields(e, fs).fields[name] == fs[i].1,
    decreases fs.len(),
{
    if last_given(fs, name, i) {
        let front = fs.drop_last();
        if i < fs.len() - 1 {
            assert(fs[fs.len() - 1].0 != name);
            assert forall|j: int| i < j < front.len() implies (#[trigger] front[j]).0 != name by {
                assert(front[j] == fs[j]);
            }
            assert(last_given(front, name, i));
            lemma_last_set(e, front, name, i);
        }
    }
}

/// The addresses of a new record are those that were given, each once, in the
/// order in which they were first given.
pub proof fn law_added_addresses(
    s: Store,
    fs: Seq<Pair>,
    fingerprint: Option<Seq<char>>,
    team: Option<Seq<char>>,
    now: Seq<char>,
    name: Seq<char>,
    value: Seq<char>,
)
    requires
        name == "ip_addr"@ || name == "mac_addr"@,
    ensures
        add_outcome(s, fs, fingerprint, team, now) matches Ok(after) ==> {
            let e = after.records.last();
            &&& e.multi.contains_key(name) <==> named(fs, name)
            &&& named(fs, name) ==> e.multi[name].no_duplicates() && (e.multi[name].contains(value)
                <==> exists|i: int| 0 <= i < fs.len() && #[trigger] fs[i] == (name, value))
        },
{
    if let Ok(after) = add_outcome(s, fs, fingerprint, team, now) {
        let blank = Entry {
            id: s.next_id,
            kind: None,
            fields: Map::empty(),
            multi: Map::empty(),
            fingerprint,
            team,
        };
        lemma_addresses_given(blank, fs, name, value);
    }
}

proof fn lemma_addresses_given(e: Entry, fs: Seq<Pair>, name: Seq<char>, value: Seq<char>)
    requires
        name == "ip_addr"@ || name == "mac_addr"@,
        !e.multi.contains_key(name),
    ensures
        with_fields(e, fs).multi.contains_key(name) <==> named(fs, name),
        named(fs, name) ==> with_fields(e, fs).multi[name].no_duplicates(),
        values_of(with_fields(e, fs).multi, name).contains(value) <==> exists|i: int|
            0 <= i < fs.len() && #[trigger] fs[i] == (name, value),
    decreases fs.len(),
{
    if fs.len() > 0 {
        let front = fs.drop_last();
        let last = fs.last();
        lemma_addresses_given(e, front, name, value);
        let had = values_of(with_fields(e, front).multi, name);
        let has = values_of(with_fields(e, fs).multi, name);
        assert(fs[fs.len() - 1] == last);
        if named(front, name) {
            let i = choose|i: int| 0 <= i < front.len() && (#[trigger] front[i]).0 == name;
            assert(fs[i].0 == name);
        }
        if named(fs, name) && last.0 != name {
            let i = choose|i: int| 0 <= i < fs.len() && (#[trigger] fs[i]).0 == name;
            assert(front[i].0 == name);
        }
        if last.0 == name {
            assert(has == add_once(had, last.1));
            if !had.contains(last.1) {
                assert(has[had.len() as int] == last.1);
                if had.contains(value) {
                    let i = choose|i: int| 0 <= i < had.len() && had[i] == value;
                    assert(has[i] == value);
                }
                if has.contains(value) && value != last.1 {
                    let i = choose|i: int| 0 <= i < has.len() && has[i] == value;
                    assert(had[i] == value);
                }
                assert forall|a: int, b: int| 0 <= a < b < has.len() implies has[a] != has[b] by {
                    if b == had.len() {
                        assert(had.contains(had[a]));
                    }
                }
            }
        } else {
            assert(has == had);
        }
        if exists|i: int| 0 <= i < front.len() && #[trigger] front[i] == (name, value) {
            let i = choose|i: int| 0 <= i < front.len() && #[trigger] front[i] == (name, value);
            assert(fs[i] == (name, value));
        }
        if exists|i: int| 0 <= i < fs.len() && #[trigger] fs[i] == (name, value) {
            let i = choose|i: int| 0 <= i < fs.len() && #[trigger] fs[i] == (name, value);
            if i < front.len() {
                assert(front[i] == (name, value));
            }
        }
    }
}

// ---------------------------------------------------------------------------
// Looking up
// ---------------------------------------------------------------------------

/// Whether a query that is about one kind of records looks at a record: at one
/// of that kind, and at one of another kind only where the query names the
/// type. A query about no kind in particular looks at every record.
pub open spec fn looked_at(e: Entry, picks: Seq<Pick>, kind: Option<Kind>) -> bool {
    match kind {
        None => true,
        Some(wanted) => e.kind == Some(wanted) || (e.kind is Some && exists|i: int|
            0 <= i < picks.len() && (#[trigger] picks[i]).0 == Some("type"@)),
    }
}

/// A query gives the records that it looks at and that answer it, in the order
/// in which they stand in the directory, and fails only where one that it looks
/// at cannot be held against the selections.
pub proof fn law_query_finds(records: Seq<Entry>, picks: Seq<Pick>, kind: Option<Kind>)
    ensures
        query_outcome(records, picks, kind) matches Ok(found) ==> found == records.filter(
            |e: Entry|
                looked_at(e, picks, kind) && answers_all(e, picks) == Ok::<bool, Failure>(true),
        ),
        query_outcome(records, picks, kind) is Ok <==> forall|i: int|
            0 <= i < records.len() && looked_at(#[trigger] records[i], picks, kind) ==> answers_all(
                records[i],
                picks,
            ) is Ok,
        query_outcome(records, picks, kind) matches Err(f) ==> exists|i: int|
            0 <= i < records.len() && looked_at(#[trigger] records[i], picks, kind) && answers_all(
                records[i],
                picks,
            ) == Err::<bool, Failure>(f),
{
    let verdict = |e: Entry| picked(e, picks, kind);
    lemma_no_failure(records, verdict);
    let f = |e: Entry| verdict(e) == Ok::<bool, Failure>(true);
    let g = |e: Entry|
        looked_at(e, picks, kind) && answers_all(e, picks) == Ok::<bool, Failure>(true);
    assert forall|e: Entry| looked_at(e, picks, kind) == #[trigger] in_view(
        e,
        picks,
        kind,
    ) by {}
    assert forall|i: int| 0 <= i < records.len() implies f(#[trigger] records[i]) == g(
        records[i],
    ) by {}
    lemma_filter_agrees(records, f, g);
    if chosen(records, verdict) is Ok {
        assert forall|i: int|
            0 <= i < records.len() && looked_at(
                #[trigger] records[i],
                picks,
                kind,
            ) implies answers_all(records[i], picks) is Ok by {
            assert(verdict(records[i]) is Ok);
        }
    } else {
        lemma_failure_of_one(records, verdict);
        let i = choose|i: int|
            0 <= i < records.len() && #[trigger] verdict(records[i]) == Err::<bool, Failure>(
                chosen(records, verdict)->Err_0,
            );
        assert(looked_at(records[i], picks, kind));
    }
}

// ---------------------------------------------------------------------------
// Adding or updating
// ---------------------------------------------------------------------------

/// Which record an upsert meets: the first whose host name or alias is the
/// first host name or alias that is given.
pub open spec fn meets(records: Seq<Entry>, fs: Seq<Pair>, k: int, i: int) -> bool {
    &&& 0 <= k < fs.len()
    &&& fs[k].0 == "hostname"@ || fs[k].0 == "alias"@
    &&& forall|j: int|
        0 <= j < k ==> (#[trigger] fs[j]).0 != "hostname"@ && fs[j].0 != "alias"@
    &&& 0 <= i < records.len()
    &&& known_as(records[i], fs[k].1)
    &&& forall|j: int| 0 <= j < i ==> !known_as(#[trigger] records[j], fs[k].1)
}

/// A record has a name as its host name or as its alias.
pub open spec fn known_as(e: Entry, name: Seq<char>) -> bool {
    ||| e.fields.contains_key("hostname"@) && e.fields["hostname"@] == name
    ||| e.fields.contains_key("alias"@) && e.fields["alias"@] == name
}

proof fn lemma_first_identifier(fs: Seq<Pair>, k: int)
    requires
        0 <= k < fs.len(),
        fs[k].0 == "hostname"@ || fs[k].0 == "alias"@,
        forall|j: int|
            0 <= j < k ==> (#[trigger] fs[j]).0 != "hostname"@ && fs[j].0 != "alias"@,
    ensures
        identifier(fs) == Some(fs[k].1),
    decreases fs.len(),
{
    if k > 0 {
        let rest = fs.drop_first();
        assert(fs[0].0 != "hostname"@);
        assert(rest[k - 1] == fs[k]);
        assert forall|j: int| 0 <= j < k - 1 implies (#[trigger] rest[j]).0 != "hostname"@
            && rest[j].0 != "alias"@ by {
            assert(rest[j] == fs[j + 1]);
        }
        lemma_first_identifier(rest, k - 1);
    }
}

proof fn lemma_no_identifier(fs: Seq<Pair>)
    requires
        !named(fs, "hostname"@),
        !named(fs, "alias"@),
    ensures
        identifier(fs) is None,
    decreases fs.len(),
{
    if fs.len() > 0 {
        let rest = fs.drop_first();
        assert(!(fs[0].0 == "hostname"@) && !(fs[0].0 == "alias"@));
        if named(rest, "hostname"@) {
            let i = choose|i: int| 0 <= i < rest.len() && (#[trigger] rest[i]).0 == "hostname"@;
            assert(fs[i + 1].0 == "hostname"@);
        }
        if named(rest, "alias"@) {
            let i = choose|i: int| 0 <= i < rest.len() && (#[trigger] rest[i]).0 == "alias"@;
            assert(fs[i + 1].0 == "alias"@);
        }
        lemma_no_identifier(rest);
    }
}

/// An upsert that meets a record updates that record or is refused. It is
/// refused for a collision where the record bears another fingerprint; for want
/// of authorization where it belongs to another team, or to a team while the
/// caller has none and no fingerprint is on it; and for its argument where it
/// has another type than a type that is given. A bad address is reported
/// before all of these. Otherwise the record is updated, and no other record
/// changes.
pub proof fn law_upsert_meeting(
    s: Store,
    fs: Seq<Pair>,
    fingerprint: Option<Seq<char>>,
    team: Option<Seq<char>>,
    now: Seq<char>,
    k: int,
    i: int,
)
    requires
        meets(s.records, fs, k, i),
    ensures
        upsert_target(s.records, fs) == i,
        ({
            let e = s.records[i];
            let r = upsert_outcome(s, fs, fingerprint, team, now);
            let bad = !good_addresses(fs);
            let other_key = e.fingerprint is Some && e.fingerprint != fingerprint;
            let other_team = e.team is Some && (if team is Some {
                team != e.team
            } else {
                e.fingerprint is None
            });
            let other_type = e.fields.contains_key("type"@) && exists|j: int|
                0 <= j < fs.len() && (#[trigger] fs[j]).0 == "type"@ && fs[j].1
                    != e.fields["type"@];
            &&& bad ==> r == Err::<(Store, UpsertOutcome), Failure>(first_field_fault(fs)->0)
            &&& !bad && other_key ==> r == Err::<(Store, UpsertOutcome), Failure>(
                Failure::Collision,
            )
            &&& !bad && !other_key && other_team ==> r == Err::<(Store, UpsertOutcome), Failure>(
                Failure::Unauthorized,
            )
            &&& !bad && !other_key && !other_team && other_type ==> r == Err::<
                (Store, UpsertOutcome),
                Failure,
            >(
                Failure::InvalidArgument(
                    "type is immutable after creation and cannot be changed"@,
                ),
            )
            &&& !bad && !other_key && !other_team && !other_type ==> (r matches Ok((after, done))
                && done == UpsertOutcome::Updated && after.next_id == s.next_id
                && after.records.len() == s.records.len() && (forall|j: int|
                0 <= j < s.records.len() && j != i ==> #[trigger] after.records[j] == s.records[j]))
        }),
{
    lemma_first_identifier(fs, k);
    let name = fs[k].1;
    assert forall|e: Entry| known_as(e, name) == #[trigger] goes_by(e, name) by {}
    lemma_first_to_go_by(s.records, name, i);
    law_bad_address_refused(fs);
    let e = s.records[i];
    if e.fields.contains_key("type"@) {
        assert(all_same(fs, "type"@, e.fields["type"@]) <==> !(exists|j: int|
            0 <= j < fs.len() && (#[trigger] fs[j]).0 == "type"@ && fs[j].1 != e.fields["type"@]));
    }
}

/// An upsert that meets no record adds one, and says so: it does and refuses
/// what adding does and refuses. A bad address comes first here, too.
pub proof fn law_upsert_meeting_none(
    s: Store,
    fs: Seq<Pair>,
    fingerprint: Option<Seq<char>>,
    team: Option<Seq<char>>,
    now: Seq<char>,
    k: int,
)
    requires
        (!named(fs, "hostname"@) && !named(fs, "alias"@)) || (0 <= k < fs.len() && (fs[k].0
            == "hostname"@ || fs[k].0 == "alias"@) && (forall|j: int|
            0 <= j < k ==> (#[trigger] fs[j]).0 != "hostname"@ && fs[j].0 != "alias"@) && forall|
            i: int,
        |
            0 <= i < s.records.len() ==> !known_as(#[trigger] s.records[i], fs[k].1)),
    ensures
        upsert_target(s.records, fs) == s.records.len(),
        first_field_fault(fs) is Some ==> upsert_outcome(s, fs, fingerprint, team, now) == Err::<
            (Store, UpsertOutcome),
            Failure,
        >(first_field_fault(fs)->0),
        first_field_fault(fs) is None ==> upsert_outcome(s, fs, fingerprint, team, now) == match add_outcome(
            s,
            fs,
            fingerprint,
            team,
            now,
        ) {
            Ok(after) => Ok::<(Store, UpsertOutcome), Failure>((after, UpsertOutcome::Created)),
            Err(f) => Err(f),
        },
{
    if !named(fs, "hostname"@) && !named(fs, "alias"@) {
        lemma_no_identifier(fs);
    } else {
        lemma_first_identifier(fs, k);
        let name = fs[k].1;
        assert forall|e: Entry| known_as(e, name) == #[trigger] goes_by(e, name) by {}
        lemma_position_of(s.records, name);
    }
}

/// What an updated record holds. Of each name the last value that was given
/// prevails, except that a source stays once it is there; a name that was not
/// given keeps its value; every address that was given is among its addresses,
/// and none that was there is lost. It is stamped with the time of the update.
/// Its number and its kind stay, and so do its owners; where it has none, it
/// gets those of the caller.
pub proof fn law_updated_record(
    s: Store,
    fs: Seq<Pair>,
    fingerprint: Option<Seq<char>>,
    team: Option<Seq<char>>,
    now: Seq<char>,
    k: int,
    i: int,
    name: Seq<char>,
    g: int,
)
    requires
        meets(s.records, fs, k, i),
    ensures
        upsert_outcome(s, fs, fingerprint, team, now) matches Ok((after, done)) ==> {
            let e = s.records[i];
            let r = after.records[i];
            &&& r.id == e.id && r.kind == e.kind
            &&& r.fingerprint == if e.fingerprint is Some {
                e.fingerprint
            } else {
                fingerprint
            }
            &&& r.team == if e.team is Some {
                e.team
            } else {
                team
            }
            &&& r.fields.contains_key("last_seen_at"@) && r.fields["last_seen_at"@] == now
            &&& last_given(fs, name, g) && name != "source"@ && name != "last_seen_at"@ && name
                != "ip_addr"@ && name != "mac_addr"@ ==> r.fields.contains_key(name)
                && r.fields[name] == fs[g].1
            &&& !named(fs, name) && name != "last_seen_at"@ ==> r.fields.contains_key(name)
                == e.fields.contains_key(name) && r.fields[name] == e.fields[name]
            &&& !named(fs, name) ==> r.multi.contains_key(name) == e.multi.contains_key(name)
                && r.multi[name] == e.multi[name]
            &&& 0 <= g < fs.len() && (fs[g].0 == "ip_addr"@ || fs[g].0 == "mac_addr"@)
                ==> r.multi.contains_key(fs[g].0) && r.multi[fs[g].0].contains(fs[g].1)
            &&& first_given(fs, "source"@, g) && !e.fields.contains_key("source"@)
                ==> r.fields.contains_key("source"@) && r.fields["source"@] == fs[g].1
            &&& e.fields.contains_key("source"@) ==> r.fields.contains_key("source"@)
                && r.fields["source"@] == e.fields["source"@]
        },
{
    law_upsert_meeting(s, fs, fingerprint, team, now, k, i);
    lemma_names_differ();
    if let Ok((after, done)) = upsert_outcome(s, fs, fingerprint, team, now) {
        let e = s.records[i];
        let owned = Entry {
            fingerprint: if e.fingerprint is None {
                fingerprint
            } else {
                e.fingerprint
            },
            team: if e.team is None {
                team
            } else {
                e.team
            },
            ..e
        };
        law_changed_fields(owned, fs, name, g);
    }
}

/// What a list of fields makes of a record that is there.
pub proof fn law_changed_fields(e: Entry, fs: Seq<Pair>, name: Seq<char>, g: int)
    ensures
        ({
            let r = refreshed_fields(e, fs);
            &&& r.id == e.id && r.kind == e.kind && r.fingerprint == e.fingerprint && r.team
                == e.team
            &&& last_given(fs, name, g) && name != "source"@ && name != "ip_addr"@ && name
                != "mac_addr"@ ==> r.fields.contains_key(name) && r.fields[name] == fs[g].1
            &&& !named(fs, name) ==> {
                &&& r.fields.contains_key(name) == e.fields.contains_key(name)
                &&& r.fields[name] == e.fields[name]
                &&& r.multi.contains_key(name) == e.multi.contains_key(name)
                &&& r.multi[name] == e.multi[name]
            }
            &&& 0 <= g < fs.len() && (fs[g].0 == "ip_addr"@ || fs[g].0 == "mac_addr"@)
                ==> r.multi.contains_key(fs[g].0) && r.multi[fs[g].0].contains(fs[g].1)
            &&& first_given(fs, "source"@, g) && !e.fields.contains_key("source"@)
                ==> r.fields.contains_key("source"@) && r.fields["source"@] == fs[g].1
            &&& e.fields.contains_key("source"@) ==> r.fields.contains_key("source"@)
                && r.fields["source"@] == e.fields["source"@]
        }),
    decreases fs.len(),
{
    lemma_names_differ();
    if !named(fs, name) {
        lemma_elsewhere(e, fs, name);
    }
    if name != "ip_addr"@ && name != "mac_addr"@ {
        lemma_last_set(e, fs, name, g);
    }
    if e.fields.contains_key("source"@) {
        lemma_source_stays(e, fs);
    }
    if fs.len() > 0 {
        let front = fs.drop_last();
        let before = refreshed_fields(e, front);
        law_changed_fields(e, front, name, g);
        if 0 <= g < fs.len() && (fs[g].0 == "ip_addr"@ || fs[g].0 == "mac_addr"@) {
            let last = fs.last();
            let had = values_of(before.multi, last.0);
            if g < front.len() {
                assert(front[g] == fs[g]);
                if last.0 == fs[g].0 {
                    let j = choose|j: int| 0 <= j < had.len() && had[j] == fs[g].1;
                    assert(add_once(had, last.1)[j] == fs[g].1);
                }
            } else if !had.contains(last.1) {
                assert(add_once(had, last.1)[had.len() as int] == last.1);
            }
        }
        if first_given(fs, "source"@, g) && !e.fields.contains_key("source"@) {
            if g < front.len() {
                assert forall|j: int| 0 <= j < g implies (#[trigger] front[j]).0 != "source"@ by {
                    assert(front[j] == fs[j]);
                }
                assert(front[g] == fs[g]);
                assert(first_given(front, "source"@, g));
            } else {
                assert(!named(front, "source"@)) by {
                    if named(front, "source"@) {
                        let j = choose|j: int|
                            0 <= j < front.len() && (#[trigger] front[j]).0 == "source"@;
                        assert(fs[j].0 == "source"@);
                    }
                }
                lemma_elsewhere(e, front, "source"@);
            }
        }
    }
}

/// What a changed record holds: the changes of the last modification of each
/// name, as far as the record answers; a record that does not answer stays as
/// it is.
pub proof fn law_changed_record(
    s: Store,
    picks: Seq<Pick>,
    mods: Seq<Pair>,
    fingerprint: Option<Seq<char>>,
    teams: Seq<Seq<char>>,
    i: int,
    name: Seq<char>,
    g: int,
)
    requires
        distinct_ids(s),
        0 <= i < s.records.len(),
    ensures
        change_outcome(s, picks, mods, fingerprint, teams) matches Ok((after, n)) ==> {
            let e = s.records[i];
            let r = after.records[i];
            &&& answers_all(e, picks) != Ok::<bool, Failure>(true) ==> r == e
            &&& answers_all(e, picks) == Ok::<bool, Failure>(true) ==> {
                &&& r.id == e.id && r.kind == e.kind && r.fingerprint == e.fingerprint && r.team
                    == e.team
                &&& last_given(mods, name, g) && name != "source"@ && name != "ip_addr"@ && name
                    != "mac_addr"@ ==> r.fields.contains_key(name) && r.fields[name] == mods[g].1
                &&& !named(mods, name) ==> r.fields.contains_key(name) == e.fields.contains_key(
                    name,
                ) && r.fields[name] == e.fields[name]
                &&& !named(mods, name) ==> r.multi.contains_key(name) == e.multi.contains_key(name)
                    && r.multi[name] == e.multi[name]
                &&& 0 <= g < mods.len() && (mods[g].0 == "ip_addr"@ || mods[g].0 == "mac_addr"@)
                    ==> r.multi.contains_key(mods[g].0) && r.multi[mods[g].0].contains(mods[g].1)
            }
        },
{
    law_change_exact(s, picks, mods, fingerprint, teams, i);
    law_changed_fields(s.records[i], mods, name, g);
}

} // verus!
