//! What a store of records holds, and what each operation makes of it.

use vstd::prelude::*;

use crate::address::ip_of;
use crate::address::is_valid_mac_address;
use crate::address::mac_octets;
use crate::address::parse_ip;
use crate::error::Failure;
use crate::error::StorageError;
use crate::record::Entry;
use crate::record::Kind;
use crate::record::UpsertOutcome;
use crate::record::kind_of;
use crate::record::with_field;
use crate::record::with_fields;
use crate::selection::Pick;
use crate::selection::answers_all;
use crate::text::ascii_lower;
use crate::text::same_text;
use crate::text::trim;

verus! {

/// A named value as a value of the specification.
pub type Pair = (Seq<char>, Seq<char>);

/// The contents of a storage engine as a value of the specification.
pub struct Store {
    pub records: Seq<Entry>,
    pub next_id: nat,
}

// ---------------------------------------------------------------------------
// Validation
// ---------------------------------------------------------------------------

/// Why a value does not fit its field: an `ip` or `ip_addr` must be an IP
/// address, a `mac` or `mac_addr` a MAC address.
pub open spec fn field_fault(name: Seq<char>, value: Seq<char>) -> Option<Failure> {
    if name == "ip"@ || name == "ip_addr"@ {
        if ip_of(value) is None {
            Some(
                Failure::InvalidArgument(
                    "invalid IP address '"@ + value + "' for field '"@ + name + "'"@,
                ),
            )
        } else {
            None
        }
    } else if name == "mac"@ || name == "mac_addr"@ {
        if mac_octets(value) is None {
            Some(
                Failure::InvalidArgument(
                    "invalid MAC address '"@ + value + "' for field '"@ + name + "'"@,
                ),
            )
        } else {
            None
        }
    } else {
        None
    }
}

/// The fault of the first field whose value does not fit.
pub open spec fn first_field_fault(fs: Seq<Pair>) -> Option<Failure>
    decreases fs.len(),
{
    if fs.len() == 0 {
        None
    } else if field_fault(fs[0].0, fs[0].1) is Some {
        field_fault(fs[0].0, fs[0].1)
    } else {
        first_field_fault(fs.drop_first())
    }
}

fn address_fault_text(what: &str, value: &str, name: &str) -> (m: String)
    ensures
        m@ == what@ + value@ + "' for field '"@ + name@ + "'"@,
{
    let mut m = what.to_string();
    m.append(value);
    m.append("' for field '");
    m.append(name);
    m.append("'");
    m
}

/// Checks that a value fits its field.
pub fn validate_ip_mac_field(key: &str, value: &str) -> (r: Result<(), StorageError>)
    ensures
        match r {
            Ok(()) => field_fault(key@, value@) is None,
            Err(e) => field_fault(key@, value@) == Some(e@),
        },
{
    if same_text(key, "ip") || same_text(key, "ip_addr") {
        if parse_ip(value).is_none() {
            return Err(
                StorageError::InvalidArgument(
                    address_fault_text("invalid IP address '", value, key),
                ),
            );
        }
    } else if same_text(key, "mac") || same_text(key, "mac_addr") {
        if !is_valid_mac_address(value) {
            return Err(
                StorageError::InvalidArgument(
                    address_fault_text("invalid MAC address '", value, key),
                ),
            );
        }
    }
    Ok(())
}

/// Checks that every value fits its field.
pub fn validate_fields(fields: &[(String, String)]) -> (r: Result<(), StorageError>)
    ensures
        match r {
            Ok(()) => first_field_fault(fields.deep_view()) is None,
            Err(e) => first_field_fault(fields.deep_view()) == Some(e@),
        },
{
    let ghost all = fields.deep_view();
    let mut i: usize = 0;
    proof {
        assert(all.skip(0) =~= all);
    }
    while i < fields.len()
        invariant
            i <= fields@.len(),
            all == fields.deep_view(),
            first_field_fault(all.skip(i as int)) == first_field_fault(all),
        decreases fields.len() - i,
    {
        proof {
            assert(all.skip(i as int)[0] == fields@[i as int].deep_view());
            assert(all.skip(i as int).drop_first() =~= all.skip(i + 1));
        }
        match validate_ip_mac_field(fields[i].0.as_str(), fields[i].1.as_str()) {
            Ok(()) => {},
            Err(e) => {
                return Err(e);
            },
        }
        i = i + 1;
    }
    proof {
        assert(all.skip(i as int).len() == 0);
    }
    Ok(())
}

/// The first value given for a name.
pub open spec fn first_value(fs: Seq<Pair>, name: Seq<char>) -> Option<Seq<char>>
    decreases fs.len(),
{
    if fs.len() == 0 {
        None
    } else if fs[0].0 == name {
        Some(fs[0].1)
    } else {
        first_value(fs.drop_first(), name)
    }
}

/// The first value given for a name.
pub fn find_value(fields: &[(String, String)], name: &str) -> (r: Option<String>)
    ensures
        r.deep_view() == first_value(fields.deep_view(), name@),
{
    let ghost all = fields.deep_view();
    let mut i: usize = 0;
    proof {
        assert(all.skip(0) =~= all);
    }
    while i < fields.len()
        invariant
            i <= fields@.len(),
            all == fields.deep_view(),
            first_value(all.skip(i as int), name@) == first_value(all, name@),
        decreases fields.len() - i,
    {
        proof {
            assert(all.skip(i as int)[0] == fields@[i as int].deep_view());
            assert(all.skip(i as int).drop_first() =~= all.skip(i + 1));
        }
        if same_text(fields[i].0.as_str(), name) {
            return Some(fields[i].1.clone());
        }
        i = i + 1;
    }
    proof {
        assert(all.skip(i as int).len() == 0);
    }
    None
}

// ---------------------------------------------------------------------------
// Adding
// ---------------------------------------------------------------------------

/// The message about a record without a type.
pub open spec fn type_required() -> Failure {
    Failure::InvalidArgument("a 'type' field is required (e.g. type=machine)"@)
}

/// Fields with a creation time, unless they name one, and the time of the last
/// sighting.
pub open spec fn stamped(fields: Map<Seq<char>, Seq<char>>, now: Seq<char>) -> Map<
    Seq<char>,
    Seq<char>,
> {
    let created = if fields.contains_key("created_at"@) {
        fields
    } else {
        fields.insert("created_at"@, now)
    };
    created.insert("last_seen_at"@, now)
}

/// A new record made of the given fields.
pub open spec fn new_entry(
    id: nat,
    fs: Seq<Pair>,
    fingerprint: Option<Seq<char>>,
    team: Option<Seq<char>>,
    now: Seq<char>,
) -> Entry {
    let blank = Entry {
        id,
        kind: None,
        fields: Map::empty(),
        multi: Map::empty(),
        fingerprint,
        team,
    };
    let filled = with_fields(blank, fs);
    let fields = stamped(filled.fields, now);
    let kind = if fields.contains_key("type"@) {
        Some(kind_of(fields["type"@]))
    } else {
        None
    };
    Entry { kind, fields, ..filled }
}

/// What adding a record at the time `now` does.
pub open spec fn add_outcome(
    store: Store,
    fs: Seq<Pair>,
    fingerprint: Option<Seq<char>>,
    team: Option<Seq<char>>,
    now: Seq<char>,
) -> Result<Store, Failure> {
    if trim(first_value(fs, "type"@).unwrap_or(Seq::empty())).len() == 0 {
        Err(type_required())
    } else if first_field_fault(fs) is Some {
        Err(first_field_fault(fs)->0)
    } else {
        Ok(
            Store {
                records: store.records.push(
                    new_entry(store.next_id, fs, fingerprint, team, now),
                ),
                next_id: store.next_id + 1,
            },
        )
    }
}

// ---------------------------------------------------------------------------
// Queries
// ---------------------------------------------------------------------------

/// The selections ask for a type themselves.
pub open spec fn asks_for_type(picks: Seq<Pick>) -> bool {
    exists|i: int| 0 <= i < picks.len() && (#[trigger] picks[i]).0 == Some("type"@)
}

/// Whether a record is in view for a client whose queries are about one kind
/// of record. A record without a type never is. A query that asks for a type
/// itself sees every record that has one.
pub open spec fn in_view(e: Entry, picks: Seq<Pick>, default_kind: Option<Kind>) -> bool {
    match (default_kind, e.kind) {
        (None, _) => true,
        (Some(wanted), Some(kind)) => kind == wanted || asks_for_type(picks),
        (Some(_), None) => false,
    }
}

/// Whether a query picks a record out.
pub open spec fn picked(e: Entry, picks: Seq<Pick>, default_kind: Option<Kind>) -> Result<
    bool,
    Failure,
> {
    if in_view(e, picks, default_kind) {
        answers_all(e, picks)
    } else {
        Ok(false)
    }
}

/// The first failure in a list of verdicts.
pub open spec fn first_failure(verdicts: Seq<Result<bool, Failure>>) -> Option<Failure>
    decreases verdicts.len(),
{
    if verdicts.len() == 0 {
        None
    } else {
        match first_failure(verdicts.drop_last()) {
            Some(e) => Some(e),
            None => match verdicts.last() {
                Err(e) => Some(e),
                Ok(_) => None,
            },
        }
    }
}

/// The records with the verdict `true`, in order; or the first failure.
pub open spec fn chosen(records: Seq<Entry>, verdict: spec_fn(Entry) -> Result<bool, Failure>) -> Result<
    Seq<Entry>,
    Failure,
> {
    match first_failure(records.map_values(verdict)) {
        Some(e) => Err(e),
        None => Ok(records.filter(|e: Entry| verdict(e) == Ok::<bool, Failure>(true))),
    }
}

/// The records that a query gives.
pub open spec fn query_outcome(
    records: Seq<Entry>,
    picks: Seq<Pick>,
    default_kind: Option<Kind>,
) -> Result<Seq<Entry>, Failure> {
    chosen(records, |e: Entry| picked(e, picks, default_kind))
}

// ---------------------------------------------------------------------------
// Ownership
// ---------------------------------------------------------------------------

/// Whether a caller may act on a record: its key's fingerprint owns it, one of
/// its teams owns it, or nobody does.
pub open spec fn owned_by(e: Entry, fingerprint: Option<Seq<char>>, teams: Seq<Seq<char>>) -> bool {
    ||| e.fingerprint is Some && e.fingerprint == fingerprint
    ||| e.team is Some && teams.contains(e.team->0)
    ||| e.fingerprint is None && e.team is None
}

/// Whether a record is to be acted on: it answers the selections, and the
/// caller may act on it. A record that answers and is out of bounds is a
/// failure.
pub open spec fn targeted(
    e: Entry,
    picks: Seq<Pick>,
    fingerprint: Option<Seq<char>>,
    teams: Seq<Seq<char>>,
    override_owner: bool,
) -> Result<bool, Failure> {
    match answers_all(e, picks) {
        Ok(true) => if owned_by(e, fingerprint, teams) || override_owner {
            Ok(true)
        } else {
            Err(Failure::Unauthorized)
        },
        other => other,
    }
}

/// The identifiers of some records.
pub open spec fn ids_of(records: Seq<Entry>) -> Set<nat> {
    records.map_values(|e: Entry| e.id).to_set()
}

/// What deleting records does: the remaining records, and how many were
/// chosen.
pub open spec fn delete_outcome(
    store: Store,
    picks: Seq<Pick>,
    fingerprint: Option<Seq<char>>,
    teams: Seq<Seq<char>>,
    roles: Seq<Seq<char>>,
) -> Result<(Store, nat), Failure> {
    match chosen(
        store.records,
        |e: Entry| targeted(e, picks, fingerprint, teams, roles.contains("admin"@)),
    ) {
        Err(e) => Err(e),
        Ok(gone) => Ok(
            (
                Store {
                    records: store.records.filter(|e: Entry| !ids_of(gone).contains(e.id)),
                    next_id: store.next_id,
                },
                gone.len(),
            ),
        ),
    }
}

/// The modifications would change a record's type.
pub open spec fn touches_type(mods: Seq<Pair>) -> bool {
    exists|i: int| 0 <= i < mods.len() && ascii_lower((#[trigger] mods[i]).0) == "type"@
}

/// What changing records does: the records afterwards, and how many were
/// chosen. The `source` of a record, once set, stays.
pub open spec fn change_outcome(
    store: Store,
    picks: Seq<Pick>,
    mods: Seq<Pair>,
    fingerprint: Option<Seq<char>>,
    teams: Seq<Seq<char>>,
) -> Result<(Store, nat), Failure> {
    if touches_type(mods) {
        Err(
            Failure::InvalidArgument(
                "type cannot be modified via change - it is set once at record creation"@,
            ),
        )
    } else if first_field_fault(mods) is Some {
        Err(first_field_fault(mods)->0)
    } else {
        match chosen(
            store.records,
            |e: Entry| targeted(e, picks, fingerprint, teams, false),
        ) {
            Err(e) => Err(e),
            Ok(changed) => Ok(
                (
                    Store {
                        records: store.records.map_values(
                            |e: Entry|
                                if ids_of(changed).contains(e.id) {
                                    refreshed_fields(e, mods)
                                } else {
                                    e
                                },
                        ),
                        next_id: store.next_id,
                    },
                    changed.len(),
                ),
            ),
        }
    }
}

// ---------------------------------------------------------------------------
// Upserts
// ---------------------------------------------------------------------------

/// The name by which an upsert finds an existing record: the first `hostname`
/// or `alias` given.
pub open spec fn identifier(fs: Seq<Pair>) -> Option<Seq<char>>
    decreases fs.len(),
{
    if fs.len() == 0 {
        None
    } else if fs[0].0 == "hostname"@ || fs[0].0 == "alias"@ {
        Some(fs[0].1)
    } else {
        identifier(fs.drop_first())
    }
}

/// A record goes by a name.
pub open spec fn goes_by(e: Entry, name: Seq<char>) -> bool {
    ||| e.fields.contains_key("hostname"@) && e.fields["hostname"@] == name
    ||| e.fields.contains_key("alias"@) && e.fields["alias"@] == name
}

/// The position of the first record that goes by a name, or the number of
/// records.
pub open spec fn position_of(records: Seq<Entry>, name: Seq<char>) -> int
    decreases records.len(),
{
    if records.len() == 0 {
        0
    } else if goes_by(records[0], name) {
        0
    } else {
        1 + position_of(records.drop_first(), name)
    }
}

/// Every value given for a name is the same.
pub open spec fn all_same(fs: Seq<Pair>, name: Seq<char>, value: Seq<char>) -> bool {
    forall|i: int| 0 <= i < fs.len() && (#[trigger] fs[i]).0 == name ==> fs[i].1 == value
}

/// Why an existing record may not be updated. Its type is immutable: no other
/// may be given.
pub open spec fn update_refusal(
    e: Entry,
    fs: Seq<Pair>,
    fingerprint: Option<Seq<char>>,
    team: Option<Seq<char>>,
) -> Option<Failure> {
    if e.fingerprint is Some && e.fingerprint != fingerprint {
        Some(Failure::Collision)
    } else if e.team is Some && team is Some && e.team != team {
        Some(Failure::Unauthorized)
    } else if e.team is Some && team is None && e.fingerprint is None {
        Some(Failure::Unauthorized)
    } else if e.fields.contains_key("type"@) && !all_same(fs, "type"@, e.fields["type"@]) {
        Some(Failure::InvalidArgument("type is immutable after creation and cannot be changed"@))
    } else {
        None
    }
}

/// A record with one field brought up to date. The `source` of a record is
/// where it came from: once set, it stays.
pub open spec fn refreshed_field(e: Entry, name: Seq<char>, value: Seq<char>) -> Entry {
    if name == "source"@ && e.fields.contains_key("source"@) {
        e
    } else {
        with_field(e, name, value)
    }
}

/// A record with several fields brought up to date, one after the other.
pub open spec fn refreshed_fields(e: Entry, fs: Seq<Pair>) -> Entry
    decreases fs.len(),
{
    if fs.len() == 0 {
        e
    } else {
        refreshed_field(refreshed_fields(e, fs.drop_last()), fs.last().0, fs.last().1)
    }
}

/// A record after an update: its fields brought up to date, its last sighting
/// now, and its owner the caller where it had none.
pub open spec fn refreshed(
    e: Entry,
    fs: Seq<Pair>,
    fingerprint: Option<Seq<char>>,
    team: Option<Seq<char>>,
    now: Seq<char>,
) -> Entry {
    let owned = Entry {
        fingerprint: if e.fingerprint is None {
            fingerprint
        } else {
            e.fingerprint
        },
        team: if e.team is None {
            team
        } else {
            e.team
        },
        ..e
    };
    let filled = refreshed_fields(owned, fs);
    Entry { fields: filled.fields.insert("last_seen_at"@, now), ..filled }
}

/// The position of the record that an upsert updates; the number of records
/// where there is none.
pub open spec fn upsert_target(records: Seq<Entry>, fs: Seq<Pair>) -> int {
    match identifier(fs) {
        Some(name) => position_of(records, name),
        None => records.len() as int,
    }
}

/// What an upsert at the time `now` does.
pub open spec fn upsert_outcome(
    store: Store,
    fs: Seq<Pair>,
    fingerprint: Option<Seq<char>>,
    team: Option<Seq<char>>,
    now: Seq<char>,
) -> Result<(Store, UpsertOutcome), Failure> {
    let i = upsert_target(store.records, fs);
    if first_field_fault(fs) is Some {
        Err(first_field_fault(fs)->0)
    } else if i < store.records.len() {
        let e = store.records[i];
        if update_refusal(e, fs, fingerprint, team) is Some {
            Err(update_refusal(e, fs, fingerprint, team)->0)
        } else {
            Ok(
                (
                    Store {
                        records: store.records.update(
                            i,
                            refreshed(e, fs, fingerprint, team, now),
                        ),
                        next_id: store.next_id,
                    },
                    UpsertOutcome::Updated,
                ),
            )
        }
    } else {
        match add_outcome(store, fs, fingerprint, team, now) {
            Ok(after) => Ok((after, UpsertOutcome::Created)),
            Err(e) => Err(e),
        }
    }
}

// ---------------------------------------------------------------------------
// Facts about choosing
// ---------------------------------------------------------------------------

/// How the choice among one record more builds on the choice before it.
pub proof fn lemma_chosen_step(
    records: Seq<Entry>,
    verdict: spec_fn(Entry) -> Result<bool, Failure>,
    i: int,
)
    requires
        0 <= i < records.len(),
    ensures
        chosen(records.take(i + 1), verdict) == match chosen(records.take(i), verdict) {
            Err(e) => Err(e),
            Ok(found) => match verdict(records[i]) {
                Err(e) => Err(e),
                Ok(true) => Ok(found.push(records[i])),
                Ok(false) => Ok(found),
            },
        },
{
    let longer = records.take(i + 1);
    let shorter = records.take(i);
    assert(longer.drop_last() =~= shorter);
    assert(longer.last() == records[i]);
    assert(longer.map_values(verdict).drop_last() =~= shorter.map_values(verdict));
    assert(longer.map_values(verdict).last() == verdict(records[i]));
    reveal(Seq::filter);
}

/// Choosing among no records.
pub proof fn lemma_chosen_none(
    records: Seq<Entry>,
    verdict: spec_fn(Entry) -> Result<bool, Failure>,
)
    ensures
        chosen(records.take(0), verdict) == Ok::<Seq<Entry>, Failure>(Seq::empty()),
{
    reveal(Seq::filter);
    assert(records.take(0).map_values(verdict).len() == 0);
    assert(records.take(0).filter(|e: Entry| verdict(e) == Ok::<bool, Failure>(true))
        =~= Seq::empty());
}

/// A failure among the first records is the failure of the whole choice.
pub proof fn lemma_chosen_failure(
    records: Seq<Entry>,
    verdict: spec_fn(Entry) -> Result<bool, Failure>,
    i: int,
)
    requires
        0 <= i <= records.len(),
        chosen(records.take(i), verdict) is Err,
    ensures
        chosen(records, verdict) == chosen(records.take(i), verdict),
    decreases records.len() - i,
{
    if i == records.len() {
        assert(records.take(i) =~= records);
    } else {
        lemma_chosen_step(records, verdict, i);
        lemma_chosen_failure(records, verdict, i + 1);
    }
}

} // verus!
