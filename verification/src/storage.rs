//! The storage engine: records in memory, and the operations on them.

use vstd::prelude::*;

use crate::clock::current_time;
use crate::clock::is_timestamp;
use crate::error::Failure;
use crate::error::StorageError;
use crate::error::outcome;
use crate::field_map::FieldMap;
use crate::matching::match_value;
use crate::matching::value_matches;
use crate::pattern::match_pattern;
use crate::pattern::pattern_matches;
use crate::record::Entry;
use crate::record::Kind;
use crate::record::Record;
use crate::record::RecordType;
use crate::record::UpsertOutcome;
use crate::record::same_optional_text;
use crate::record::text_listed;
use crate::record::with_fields;
use crate::selection;
use crate::selection::Pick;
use crate::selection::address_answers;
use crate::selection::answers_all;
use crate::store::Pair;
use crate::store::Store;
use crate::store::add_outcome;
use crate::store::all_same;
use crate::store::asks_for_type;
use crate::store::change_outcome;
use crate::store::chosen;
use crate::store::delete_outcome;
use crate::store::find_value;
use crate::store::goes_by;
use crate::store::identifier;
use crate::store::ids_of;
use crate::store::lemma_chosen_failure;
use crate::store::lemma_chosen_none;
use crate::store::lemma_chosen_step;
use crate::store::new_entry;
use crate::store::owned_by;
use crate::store::picked;
use crate::store::position_of;
use crate::store::query_outcome;
use crate::store::refreshed;
use crate::store::refreshed_fields;
use crate::store::stamped;
use crate::store::targeted;
use crate::store::touches_type;
use crate::store::update_refusal;
use crate::store::upsert_outcome;
use crate::store::upsert_target;
use crate::store::validate_fields;
use crate::text::ascii_lower;
use crate::text::chars_of;
use crate::text::same_ignoring_ascii_case;
use crate::text::same_text;
use crate::text::trim_text;

verus! {

/// The answer to a query, its records and its error taken by their views.
pub open spec fn found(r: Result<Vec<Record>, StorageError>) -> Result<Seq<Entry>, Failure> {
    match r {
        Ok(records) => Ok(records.deep_view()),
        Err(e) => Err(e@),
    }
}

/// A directory of records.
///
/// Directories differ in what they do with a request: one in memory does what
/// `Store` says, one behind a network may answer otherwise from one call to
/// the next. Each says by the `may_` predicates which outcomes a call can have.
pub trait Storage: Send + Sync {
    /// There is an identifier left for one more record.
    spec fn has_room(&self) -> bool;

    /// The outcomes that `record_count` can have.
    spec fn may_count(&self, n: usize) -> bool;

    /// The outcomes that `query` can have.
    spec fn may_answer(
        &self,
        picks: Seq<Pick>,
        default_kind: Option<Kind>,
        r: Result<Seq<Entry>, Failure>,
    ) -> bool;

    /// The outcomes that `add_record` can have.
    spec fn may_add(
        &self,
        after: &Self,
        fs: Seq<Pair>,
        fingerprint: Option<Seq<char>>,
        team: Option<Seq<char>>,
        r: Result<(), Failure>,
    ) -> bool;

    /// The outcomes that `upsert_record` can have.
    spec fn may_upsert(
        &self,
        after: &Self,
        fs: Seq<Pair>,
        fingerprint: Option<Seq<char>>,
        team: Option<Seq<char>>,
        r: Result<UpsertOutcome, Failure>,
    ) -> bool;

    /// The outcomes that `delete_record` can have.
    spec fn may_delete(
        &self,
        after: &Self,
        picks: Seq<Pick>,
        fingerprint: Option<Seq<char>>,
        teams: Seq<Seq<char>>,
        roles: Seq<Seq<char>>,
        r: Result<usize, Failure>,
    ) -> bool;

    /// The outcomes that `change_record` can have.
    spec fn may_change(
        &self,
        after: &Self,
        picks: Seq<Pick>,
        mods: Seq<Pair>,
        fingerprint: Option<Seq<char>>,
        teams: Seq<Seq<char>>,
        r: Result<usize, Failure>,
    ) -> bool;

    /// The number of records.
    fn record_count(&self) -> (n: usize)
        ensures
            self.may_count(n),
    ;

    /// Adds a record.
    fn add_record(
        &mut self,
        fields: Vec<(String, String)>,
        fingerprint: Option<String>,
        team: Option<String>,
    ) -> (r: Result<(), StorageError>)
        requires
            old(self).has_room(),
        ensures
            old(self).may_add(
                final(self),
                fields.deep_view(),
                fingerprint.deep_view(),
                team.deep_view(),
                outcome(r),
            ),
    ;

    /// The records that answer the selections.
    fn query(
        &self,
        selections: &[(Option<String>, String)],
        default_type: Option<RecordType>,
    ) -> (r: Result<Vec<Record>, StorageError>)
        ensures
            self.may_answer(selections.deep_view(), default_type.deep_view(), found(r)),
    ;

    /// Updates the record that goes by the given name, or adds one.
    fn upsert_record(
        &mut self,
        fields: Vec<(String, String)>,
        fingerprint: Option<String>,
        team: Option<String>,
    ) -> (r: Result<UpsertOutcome, StorageError>)
        requires
            old(self).has_room(),
        ensures
            old(self).may_upsert(
                final(self),
                fields.deep_view(),
                fingerprint.deep_view(),
                team.deep_view(),
                outcome(r),
            ),
    ;

    /// Deletes the records that answer the selections.
    fn delete_record(
        &mut self,
        selections: &[(Option<String>, String)],
        fingerprint: Option<String>,
        teams: &[String],
        roles: &[String],
    ) -> (r: Result<usize, StorageError>)
        ensures
            old(self).may_delete(
                final(self),
                selections.deep_view(),
                fingerprint.deep_view(),
                teams.deep_view(),
                roles.deep_view(),
                outcome(r),
            ),
    ;

    /// Sets fields of the records that answer the selections.
    fn change_record(
        &mut self,
        selections: &[(Option<String>, String)],
        modifications: &[(String, String)],
        fingerprint: Option<String>,
        teams: &[String],
    ) -> (r: Result<usize, StorageError>)
        ensures
            old(self).may_change(
                final(self),
                selections.deep_view(),
                modifications.deep_view(),
                fingerprint.deep_view(),
                teams.deep_view(),
                outcome(r),
            ),
    ;
}

/// Records in memory.
pub struct MemoryStorage {
    records: Vec<Record>,
    next_id: usize,
}

impl View for MemoryStorage {
    type V = Store;

    closed spec fn view(&self) -> Store {
        Store { records: self.records.deep_view(), next_id: self.next_id as nat }
    }
}

impl Default for MemoryStorage {
    fn default() -> (s: Self)
        ensures
            s@ == (Store { records: Seq::empty(), next_id: 1 }),
    {
        Self::new()
    }
}

/// Whether the selections ask for a type themselves.
fn type_asked(selections: &[(Option<String>, String)]) -> (b: bool)
    ensures
        b == asks_for_type(selections.deep_view()),
{
    let ghost all = selections.deep_view();
    let mut i: usize = 0;
    while i < selections.len()
        invariant
            i <= selections@.len(),
            all == selections.deep_view(),
            forall|j: int| 0 <= j < i ==> (#[trigger] all[j]).0 != Some("type"@),
        decreases selections.len() - i,
    {
        proof {
            assert(all[i as int] == selections@[i as int].deep_view());
        }
        if let Some(name) = &selections[i].0 {
            if same_text(name.as_str(), "type") {
                proof {
                    assert(all[i as int].0 == Some("type"@));
                }
                return true;
            }
        }
        i = i + 1;
    }
    false
}

/// Whether a caller may act on a record.
fn may_act(record: &Record, fingerprint: &Option<String>, teams: &[String]) -> (b: bool)
    ensures
        b == owned_by(record@, fingerprint.deep_view(), teams.deep_view()),
{
    match (&record.owner_fingerprint, &record.owner_team) {
        (None, None) => true,
        (owner, team) => {
            if owner.is_some() && same_optional_text(owner, fingerprint) {
                return true;
            }
            match team {
                Some(t) => text_listed(teams, t.as_str()),
                None => false,
            }
        },
    }
}

/// Whether a list of identifiers holds one.
fn id_listed(ids: &Vec<usize>, id: usize) -> (b: bool)
    ensures
        b == ids@.contains(id),
{
    let mut i: usize = 0;
    while i < ids.len()
        invariant
            i <= ids@.len(),
            forall|j: int| 0 <= j < i ==> ids@[j] != id,
        decreases ids.len() - i,
    {
        if ids[i] == id {
            return true;
        }
        i = i + 1;
    }
    false
}

/// Whether the modifications would change a record's type.
fn type_touched(mods: &[(String, String)]) -> (b: bool)
    ensures
        b == touches_type(mods.deep_view()),
{
    let ghost all = mods.deep_view();
    proof {
        reveal_strlit("type");
        assert(ascii_lower("type"@) =~= "type"@);
    }
    let mut i: usize = 0;
    while i < mods.len()
        invariant
            i <= mods@.len(),
            all == mods.deep_view(),
            ascii_lower("type"@) == "type"@,
            forall|j: int| 0 <= j < i ==> ascii_lower((#[trigger] all[j]).0) != "type"@,
        decreases mods.len() - i,
    {
        proof {
            assert(all[i as int] == mods@[i as int].deep_view());
        }
        if same_ignoring_ascii_case(mods[i].0.as_str(), "type") {
            return true;
        }
        i = i + 1;
    }
    false
}

/// The identifiers in a list, as numbers of the specification.
pub open spec fn id_set(ids: Seq<usize>) -> Set<nat> {
    Set::new(|n: nat| exists|i: int| 0 <= i < ids.len() && #[trigger] ids[i] == n)
}

proof fn lemma_ids(ids: Seq<usize>, records: Seq<Entry>)
    requires
        ids.len() == records.len(),
        forall|i: int| 0 <= i < ids.len() ==> #[trigger] ids[i] == records[i].id,
    ensures
        id_set(ids) == ids_of(records),
{
    let all = records.map_values(|e: Entry| e.id);
    assert forall|n: nat| #[trigger] id_set(ids).contains(n) == ids_of(records).contains(n) by {
        if id_set(ids).contains(n) {
            let i = choose|i: int| 0 <= i < ids.len() && #[trigger] ids[i] == n;
            assert(all[i] == n);
            assert(all.contains(n));
        }
        if ids_of(records).contains(n) {
            let i = choose|i: int| 0 <= i < all.len() && all[i] == n;
            assert(ids[i] == n);
        }
    }
    assert(id_set(ids) =~= ids_of(records));
}

impl MemoryStorage {
    /// An empty directory.
    pub fn new() -> (s: Self)
        ensures
            s@ == (Store { records: Seq::empty(), next_id: 1 }),
    {
        let s = MemoryStorage { records: Vec::new(), next_id: 1 };
        proof {
            assert(s@.records =~= Seq::empty());
        }
        s
    }

    /// A directory with the given records and the next free identifier.
    pub fn with_records(records: Vec<Record>, next_id: usize) -> (s: Self)
        ensures
            s@ == (Store { records: records.deep_view(), next_id: next_id as nat }),
    {
        MemoryStorage { records, next_id }
    }

    /// Whether there is an identifier left for one more record.
    pub fn has_space(&self) -> (b: bool)
        ensures
            b == self.has_room(),
    {
        self.next_id < usize::MAX
    }

    /// A copy of the records.
    pub fn snapshot(&self) -> (rs: Vec<Record>)
        ensures
            rs.deep_view() == self@.records,
    {
        let mut rs: Vec<Record> = Vec::new();
        let mut i: usize = 0;
        while i < self.records.len()
            invariant
                i <= self.records@.len(),
                rs.deep_view() == self.records.deep_view().take(i as int),
            decreases self.records.len() - i,
        {
            let ghost before = rs.deep_view();
            let r = self.records[i].clone();
            rs.push(r);
            i = i + 1;
            proof {
                assert(rs.deep_view() =~= before.push(r@));
                assert(self.records.deep_view().take(i as int) =~= before.push(r@));
            }
        }
        proof {
            assert(self.records.deep_view().take(i as int) =~= self.records.deep_view());
        }
        rs
    }

    /// Whether a stored value answers a query value, word by word.
    pub fn matches(&self, field_val: &str, query_val: &str) -> (r: Result<bool, StorageError>)
        ensures
            outcome(r) == value_matches(field_val@, query_val@),
    {
        match_value(field_val, query_val)
    }

    /// Whether a word matches a pattern.
    pub fn wildcard_match(&self, word: &str, pattern: &str) -> (r: Result<bool, StorageError>)
        ensures
            outcome(r) == pattern_matches(word@, pattern@),
    {
        match_pattern(&chars_of(word), &chars_of(pattern))
    }

    /// Whether a stored address answers a query value.
    pub fn address_matches(&self, field_name: &str, field_val: &str, query_val: &str) -> (r: Result<
        bool,
        StorageError,
    >)
        ensures
            outcome(r) == address_answers(field_name@, field_val@, query_val@),
    {
        selection::address_matches(field_name, field_val, query_val)
    }

    /// Whether a record answers every selection.
    pub fn record_matches_selections(
        &self,
        record: &Record,
        selections: &[(Option<String>, String)],
    ) -> (r: Result<bool, StorageError>)
        ensures
            outcome(r) == answers_all(record@, selections.deep_view()),
    {
        selection::record_matches_selections(record, selections)
    }

    /// Whether a query picks a record out.
    fn picks_out(
        record: &Record,
        selections: &[(Option<String>, String)],
        default_type: &Option<RecordType>,
        type_wanted: bool,
    ) -> (r: Result<bool, StorageError>)
        requires
            type_wanted == asks_for_type(selections.deep_view()),
        ensures
            outcome(r) == picked(record@, selections.deep_view(), default_type.deep_view()),
    {
        let seen = match (default_type, &record.record_type) {
            (None, _) => true,
            (Some(wanted), Some(kind)) => kind.same_as(wanted) || type_wanted,
            (Some(_), None) => false,
        };
        if seen {
            selection::record_matches_selections(record, selections)
        } else {
            Ok(false)
        }
    }

    /// The identifiers of the records to act on.
    fn targets(
        &self,
        selections: &[(Option<String>, String)],
        fingerprint: &Option<String>,
        teams: &[String],
        override_owner: bool,
    ) -> (r: Result<Vec<usize>, StorageError>)
        ensures
            ({
                let picks = selections.deep_view();
                let fp = fingerprint.deep_view();
                let ts = teams.deep_view();
                match chosen(
                    self@.records,
                    |e: Entry| targeted(e, picks, fp, ts, override_owner),
                ) {
                    Ok(hit) => r matches Ok(ids) && ids@.len() == hit.len() && forall|i: int|
                        0 <= i < hit.len() ==> #[trigger] ids@[i] == hit[i].id,
                    Err(e) => r matches Err(err) && err@ == e,
                }
            }),
    {
        let ghost all = self@.records;
        let ghost picks = selections.deep_view();
        let ghost fp = fingerprint.deep_view();
        let ghost ts = teams.deep_view();
        let ghost verdict = |e: Entry| targeted(e, picks, fp, ts, override_owner);
        let mut ids: Vec<usize> = Vec::new();
        let mut i: usize = 0;
        proof {
            lemma_chosen_none(all, verdict);
        }
        while i < self.records.len()
            invariant
                i <= self.records@.len(),
                all == self.records.deep_view(),
                picks == selections.deep_view(),
                fp == fingerprint.deep_view(),
                ts == teams.deep_view(),
                verdict == (|e: Entry| targeted(e, picks, fp, ts, override_owner)),
                chosen(all.take(i as int), verdict) is Ok,
                ids@.len() == (chosen(all.take(i as int), verdict)->Ok_0).len(),
                forall|j: int|
                    0 <= j < ids@.len() ==> #[trigger] ids@[j] == (chosen(
                        all.take(i as int),
                        verdict,
                    )->Ok_0)[j].id,
            decreases self.records.len() - i,
        {
            let record = &self.records[i];
            proof {
                assert(all[i as int] == record@);
                lemma_chosen_step(all, verdict, i as int);
            }
            match selection::record_matches_selections(record, selections) {
                Ok(true) => {
                    if may_act(record, fingerprint, teams) || override_owner {
                        ids.push(record.id);
                    } else {
                        proof {
                            lemma_chosen_failure(all, verdict, i + 1);
                        }
                        return Err(StorageError::Unauthorized);
                    }
                },
                Ok(false) => {},
                Err(e) => {
                    proof {
                        lemma_chosen_failure(all, verdict, i + 1);
                    }
                    return Err(e);
                },
            }
            i = i + 1;
        }
        proof {
            assert(all.take(i as int) =~= all);
        }
        Ok(ids)
    }

    /// Removes the records with the listed identifiers.
    fn drop_listed(&mut self, ids: &Vec<usize>)
        ensures
            final(self)@ == (Store {
                records: old(self)@.records.filter(|e: Entry| !id_set(ids@).contains(e.id)),
                ..old(self)@
            }),
    {
        let ghost all = self.records.deep_view();
        let ghost keep = |e: Entry| !id_set(ids@).contains(e.id);
        let ghost next = self.next_id;
        let mut i: usize = 0;
        let ghost mut k: int = 0;
        proof {
            reveal(Seq::filter);
            assert(all.take(0).filter(keep) =~= Seq::empty());
            assert(self.records.deep_view() =~= all.take(0).filter(keep) + all.skip(0));
        }
        while i < self.records.len()
            invariant
                0 <= k <= all.len(),
                i == all.take(k).filter(keep).len(),
                self.next_id == next,
                keep == (|e: Entry| !id_set(ids@).contains(e.id)),
                self.records.deep_view() == all.take(k).filter(keep) + all.skip(k),
            decreases all.len() - k,
        {
            let ghost before = self.records.deep_view();
            let ghost kept = all.take(k).filter(keep);
            proof {
                assert(before.len() == self.records@.len());
                assert(before[i as int] == all.skip(k)[0]);
                assert(before[i as int] == self.records@[i as int]@);
                assert(all.take(k + 1).drop_last() =~= all.take(k));
                assert(all.take(k + 1).last() == all[k]);
                reveal(Seq::filter);
            }
            let id = self.records[i].id;
            if id_listed(ids, id) {
                proof {
                    let j = choose|j: int| 0 <= j < ids@.len() && ids@[j] == id;
                    assert(ids@[j] == all[k].id);
                    assert(!keep(all[k]));
                }
                let _ = self.records.remove(i);
                proof {
                    assert(self.records.deep_view() =~= before.remove(i as int));
                    assert(before.remove(i as int) =~= kept + all.skip(k + 1));
                }
            } else {
                proof {
                    assert(keep(all[k])) by {
                        if id_set(ids@).contains(all[k].id) {
                            let j = choose|j: int|
                                0 <= j < ids@.len() && #[trigger] ids@[j] == all[k].id;
                            assert(ids@.contains(id));
                        }
                    }
                    assert(kept.push(all[k]) + all.skip(k + 1) =~= kept + all.skip(k));
                }
                i = i + 1;
            }
            proof {
                k = k + 1;
            }
        }
        proof {
            assert(all.skip(k).len() == 0);
            assert(all.take(k) =~= all);
            assert(self.records.deep_view() =~= all.filter(keep));
        }
    }

    /// Sets fields of the records with the listed identifiers.
    fn change_listed(&mut self, ids: &Vec<usize>, mods: &[(String, String)])
        ensures
            final(self)@ == (Store {
                records: old(self)@.records.map_values(
                    |e: Entry|
                        if id_set(ids@).contains(e.id) {
                            refreshed_fields(e, mods.deep_view())
                        } else {
                            e
                        },
                ),
                ..old(self)@
            }),
    {
        let ghost all = self.records.deep_view();
        let ghost next = self.next_id;
        let ghost after = |e: Entry|
            if id_set(ids@).contains(e.id) {
                refreshed_fields(e, mods.deep_view())
            } else {
                e
            };
        let mut i: usize = 0;
        while i < self.records.len()
            invariant
                i <= self.records@.len(),
                self.next_id == next,
                self.records@.len() == all.len(),
                after == (|e: Entry|
                    if id_set(ids@).contains(e.id) {
                        refreshed_fields(e, mods.deep_view())
                    } else {
                        e
                    }),
                forall|j: int| 0 <= j < i ==> (#[trigger] self.records@[j])@ == after(all[j]),
                forall|j: int| i <= j < all.len() ==> (#[trigger] self.records@[j])@ == all[j],
            decreases self.records.len() - i,
        {
            let id = self.records[i].id;
            proof {
                assert(self.records@[i as int]@ == all[i as int]);
            }
            if id_listed(ids, id) {
                proof {
                    let j = choose|j: int| 0 <= j < ids@.len() && ids@[j] == id;
                    assert(ids@[j] == all[i as int].id);
                }
                refresh_fields(&mut self.records[i], mods);
            } else {
                proof {
                    if id_set(ids@).contains(all[i as int].id) {
                        let j = choose|j: int|
                            0 <= j < ids@.len() && #[trigger] ids@[j] == all[i as int].id;
                        assert(ids@.contains(id));
                    }
                }
            }
            i = i + 1;
        }
        proof {
            assert(self.records.deep_view() =~= all.map_values(after));
        }
    }

    /// The position of the record that an upsert updates, or the number of
    /// records.
    fn find_target(&self, fields: &[(String, String)]) -> (i: usize)
        ensures
            i == upsert_target(self@.records, fields.deep_view()),
            i <= self@.records.len(),
    {
        match find_identifier(fields) {
            None => self.records.len(),
            Some(name) => {
                let ghost all = self.records.deep_view();
                let mut i: usize = 0;
                proof {
                    assert(all.skip(0) =~= all);
                }
                while i < self.records.len()
                    invariant
                        i <= self.records@.len(),
                        all == self.records.deep_view(),
                        identifier(fields.deep_view()) == Some(name@),
                        position_of(all, name@) == i + position_of(all.skip(i as int), name@),
                    decreases self.records.len() - i,
                {
                    proof {
                        assert(all.skip(i as int)[0] == self.records@[i as int]@);
                        assert(all.skip(i as int).drop_first() =~= all.skip(i + 1));
                    }
                    if named(&self.records[i], name.as_str()) {
                        return i;
                    }
                    i = i + 1;
                }
                proof {
                    assert(all.skip(i as int).len() == 0);
                }
                i
            },
        }
    }

    /// Adds a record at the time `now`.
    pub fn add_record_at(
        &mut self,
        fields: Vec<(String, String)>,
        fingerprint: Option<String>,
        team: Option<String>,
        now: &str,
    ) -> (r: Result<(), StorageError>)
        requires
            old(self)@.next_id < usize::MAX,
        ensures
            match add_outcome(
                old(self)@,
                fields.deep_view(),
                fingerprint.deep_view(),
                team.deep_view(),
                now@,
            ) {
                Ok(after) => r is Ok && final(self)@ == after,
                Err(e) => r matches Err(err) && err@ == e && final(self)@ == old(self)@,
            },
    {
        let given = find_value(&fields, "type");
        let kind_name = match &given {
            Some(v) => trim_text(v.as_str()),
            None => String::new(),
        };
        proof {
            if given is None {
                assert(crate::text::trim(Seq::<char>::empty()) =~= Seq::empty());
            }
        }
        if kind_name.as_str().is_empty() {
            return Err(
                StorageError::InvalidArgument(
                    "a 'type' field is required (e.g. type=machine)".to_string(),
                ),
            );
        }
        match validate_fields(&fields) {
            Ok(()) => {},
            Err(e) => {
                return Err(e);
            },
        }
        let ghost before = self.records.deep_view();
        let record = build_record(self.next_id, &fields, fingerprint, team, now);
        self.records.push(record);
        self.next_id = self.next_id + 1;
        proof {
            assert(self.records.deep_view() =~= before.push(record@));
        }
        Ok(())
    }

    /// Updates or adds a record at the time `now`.
    pub fn upsert_record_at(
        &mut self,
        fields: Vec<(String, String)>,
        fingerprint: Option<String>,
        team: Option<String>,
        now: &str,
    ) -> (r: Result<UpsertOutcome, StorageError>)
        requires
            old(self)@.next_id < usize::MAX,
        ensures
            match upsert_outcome(
                old(self)@,
                fields.deep_view(),
                fingerprint.deep_view(),
                team.deep_view(),
                now@,
            ) {
                Ok((after, done)) => r matches Ok(o) && o == done && final(self)@ == after,
                Err(e) => r matches Err(err) && err@ == e && final(self)@ == old(self)@,
            },
    {
        match validate_fields(&fields) {
            Ok(()) => {},
            Err(e) => {
                return Err(e);
            },
        }
        let i = self.find_target(&fields);
        if i < self.records.len() {
            proof {
                assert(self.records.deep_view()[i as int] == self.records@[i as int]@);
            }
            match refusal(&self.records[i], &fields, &fingerprint, &team) {
                Some(e) => {
                    return Err(e);
                },
                None => {},
            }
            let ghost before = self.records.deep_view();
            refresh(&mut self.records[i], &fields, fingerprint, team, now);
            proof {
                assert(self.records.deep_view() =~= before.update(
                    i as int,
                    self.records@[i as int]@,
                ));
            }
            return Ok(UpsertOutcome::Updated);
        }
        match self.add_record_at(fields, fingerprint, team, now) {
            Ok(()) => Ok(UpsertOutcome::Created),
            Err(e) => Err(e),
        }
    }
}

/// Sets fields of a record, one after the other.
fn set_fields(record: &mut Record, mods: &[(String, String)])
    ensures
        final(record)@ == with_fields(old(record)@, mods.deep_view()),
{
    let ghost start = record@;
    let ghost all = mods.deep_view();
    let mut i: usize = 0;
    while i < mods.len()
        invariant
            i <= mods@.len(),
            all == mods.deep_view(),
            record@ == with_fields(start, all.take(i as int)),
        decreases mods.len() - i,
    {
        proof {
            assert(all.take(i + 1).drop_last() =~= all.take(i as int));
            assert(all.take(i + 1).last() == mods@[i as int].deep_view());
        }
        record.set_field(mods[i].0.as_str(), mods[i].1.as_str());
        i = i + 1;
    }
    proof {
        assert(all.take(i as int) =~= all);
    }
}

/// The first `hostname` or `alias` given.
fn find_identifier(fields: &[(String, String)]) -> (r: Option<String>)
    ensures
        r.deep_view() == identifier(fields.deep_view()),
{
    let ghost all = fields.deep_view();
    let mut i: usize = 0;
    proof {
        assert(all.skip(0) =~= all);
    }
    while i < fields.len()
        invariant
            i <= fields@.len(),
            all == fields.deep_view(),
            identifier(all.skip(i as int)) == identifier(all),
        decreases fields.len() - i,
    {
        proof {
            assert(all.skip(i as int)[0] == fields@[i as int].deep_view());
            assert(all.skip(i as int).drop_first() =~= all.skip(i + 1));
        }
        let name = fields[i].0.as_str();
        if same_text(name, "hostname") || same_text(name, "alias") {
            return Some(fields[i].1.clone());
        }
        i = i + 1;
    }
    proof {
        assert(all.skip(i as int).len() == 0);
    }
    None
}

/// Whether a record goes by a name.
fn named(record: &Record, name: &str) -> (b: bool)
    ensures
        b == goes_by(record@, name@),
{
    if let Some(v) = record.fields.get("hostname") {
        if same_text(v.as_str(), name) {
            return true;
        }
    }
    match record.fields.get("alias") {
        Some(v) => same_text(v.as_str(), name),
        None => false,
    }
}

/// A new record made of the given fields.
fn build_record(
    id: usize,
    fields: &[(String, String)],
    fingerprint: Option<String>,
    team: Option<String>,
    now: &str,
) -> (record: Record)
    ensures
        record@ == new_entry(
            id as nat,
            fields.deep_view(),
            fingerprint.deep_view(),
            team.deep_view(),
            now@,
        ),
{
    let mut record = Record {
        id,
        record_type: None,
        fields: FieldMap::new(),
        multi_fields: FieldMap::new(),
        owner_fingerprint: fingerprint,
        owner_team: team,
    };
    set_fields(&mut record, fields);
    let ghost filled = record@;
    if !record.fields.contains_key("created_at") {
        record.fields.insert("created_at".to_string(), now.to_string());
    }
    record.fields.insert("last_seen_at".to_string(), now.to_string());
    proof {
        assert(record.fields@ == stamped(filled.fields, now@));
    }
    let record_type = match record.fields.get("type") {
        Some(v) => Some(RecordType::from(v.as_str())),
        None => None,
    };
    record.record_type = record_type;
    record
}

/// Whether every value given for a name is the given one.
fn gives_only(fields: &[(String, String)], name: &str, value: &str) -> (b: bool)
    ensures
        b == all_same(fields.deep_view(), name@, value@),
{
    let ghost all = fields.deep_view();
    let mut i: usize = 0;
    while i < fields.len()
        invariant
            i <= fields@.len(),
            all == fields.deep_view(),
            forall|j: int| 0 <= j < i && (#[trigger] all[j]).0 == name@ ==> all[j].1 == value@,
        decreases fields.len() - i,
    {
        proof {
            assert(all[i as int] == fields@[i as int].deep_view());
        }
        if same_text(fields[i].0.as_str(), name) && !same_text(fields[i].1.as_str(), value) {
            return false;
        }
        i = i + 1;
    }
    true
}

/// Why an existing record may not be updated.
fn refusal(
    record: &Record,
    fields: &[(String, String)],
    fingerprint: &Option<String>,
    team: &Option<String>,
) -> (r: Option<StorageError>)
    ensures
        match r {
            Some(e) => update_refusal(
                record@,
                fields.deep_view(),
                fingerprint.deep_view(),
                team.deep_view(),
            ) == Some(e@),
            None => update_refusal(
                record@,
                fields.deep_view(),
                fingerprint.deep_view(),
                team.deep_view(),
            ) is None,
        },
{
    if record.owner_fingerprint.is_some() && !same_optional_text(
        &record.owner_fingerprint,
        fingerprint,
    ) {
        return Some(StorageError::Collision);
    }
    if record.owner_team.is_some() {
        if team.is_some() {
            if !same_optional_text(&record.owner_team, team) {
                return Some(StorageError::Unauthorized);
            }
        } else if record.owner_fingerprint.is_none() {
            return Some(StorageError::Unauthorized);
        }
    }
    if let Some(existing) = record.fields.get("type") {
        if !gives_only(fields, "type", existing.as_str()) {
            return Some(
                StorageError::InvalidArgument(
                    "type is immutable after creation and cannot be changed".to_string(),
                ),
            );
        }
    }
    None
}

/// Brings fields of a record up to date, one after the other. A `source` that
/// is set stays.
fn refresh_fields(record: &mut Record, fields: &[(String, String)])
    ensures
        final(record)@ == refreshed_fields(old(record)@, fields.deep_view()),
{
    let ghost start = record@;
    let ghost all = fields.deep_view();
    let mut i: usize = 0;
    while i < fields.len()
        invariant
            i <= fields@.len(),
            all == fields.deep_view(),
            record@ == refreshed_fields(start, all.take(i as int)),
        decreases fields.len() - i,
    {
        proof {
            assert(all.take(i + 1).drop_last() =~= all.take(i as int));
            assert(all.take(i + 1).last() == fields@[i as int].deep_view());
        }
        let name = fields[i].0.as_str();
        if !(same_text(name, "source") && record.fields.contains_key("source")) {
            record.set_field(name, fields[i].1.as_str());
        }
        i = i + 1;
    }
    proof {
        assert(all.take(i as int) =~= all);
    }
}

/// Brings a record up to date.
fn refresh(
    record: &mut Record,
    fields: &[(String, String)],
    fingerprint: Option<String>,
    team: Option<String>,
    now: &str,
)
    ensures
        final(record)@ == refreshed(
            old(record)@,
            fields.deep_view(),
            fingerprint.deep_view(),
            team.deep_view(),
            now@,
        ),
{
    if record.owner_fingerprint.is_none() {
        record.owner_fingerprint = fingerprint;
    }
    if record.owner_team.is_none() {
        record.owner_team = team;
    }
    refresh_fields(record, fields);
    record.fields.insert("last_seen_at".to_string(), now.to_string());
}

impl Storage for MemoryStorage {
    open spec fn has_room(&self) -> bool {
        self@.next_id < usize::MAX
    }

    open spec fn may_count(&self, n: usize) -> bool {
        n == self@.records.len()
    }

    open spec fn may_answer(
        &self,
        picks: Seq<Pick>,
        default_kind: Option<Kind>,
        r: Result<Seq<Entry>, Failure>,
    ) -> bool {
        r == query_outcome(self@.records, picks, default_kind)
    }

    open spec fn may_add(
        &self,
        after: &Self,
        fs: Seq<Pair>,
        fingerprint: Option<Seq<char>>,
        team: Option<Seq<char>>,
        r: Result<(), Failure>,
    ) -> bool {
        exists|now: Seq<char>|
            #![trigger is_timestamp(now)]
            is_timestamp(now) && match add_outcome(self@, fs, fingerprint, team, now) {
                Ok(store) => r is Ok && after@ == store,
                Err(e) => r == Err::<(), Failure>(e) && after@ == self@,
            }
    }

    open spec fn may_upsert(
        &self,
        after: &Self,
        fs: Seq<Pair>,
        fingerprint: Option<Seq<char>>,
        team: Option<Seq<char>>,
        r: Result<UpsertOutcome, Failure>,
    ) -> bool {
        exists|now: Seq<char>|
            #![trigger is_timestamp(now)]
            is_timestamp(now) && match upsert_outcome(self@, fs, fingerprint, team, now) {
                Ok((store, done)) => r == Ok::<UpsertOutcome, Failure>(done) && after@ == store,
                Err(e) => r == Err::<UpsertOutcome, Failure>(e) && after@ == self@,
            }
    }

    open spec fn may_delete(
        &self,
        after: &Self,
        picks: Seq<Pick>,
        fingerprint: Option<Seq<char>>,
        teams: Seq<Seq<char>>,
        roles: Seq<Seq<char>>,
        r: Result<usize, Failure>,
    ) -> bool {
        match delete_outcome(self@, picks, fingerprint, teams, roles) {
            Ok((store, n)) => r matches Ok(count) && count == n && after@ == store,
            Err(e) => r == Err::<usize, Failure>(e) && after@ == self@,
        }
    }

    open spec fn may_change(
        &self,
        after: &Self,
        picks: Seq<Pick>,
        mods: Seq<Pair>,
        fingerprint: Option<Seq<char>>,
        teams: Seq<Seq<char>>,
        r: Result<usize, Failure>,
    ) -> bool {
        match change_outcome(self@, picks, mods, fingerprint, teams) {
            Ok((store, n)) => r matches Ok(count) && count == n && after@ == store,
            Err(e) => r == Err::<usize, Failure>(e) && after@ == self@,
        }
    }

    fn record_count(&self) -> (n: usize) {
        self.records.len()
    }

    fn add_record(
        &mut self,
        fields: Vec<(String, String)>,
        fingerprint: Option<String>,
        team: Option<String>,
    ) -> (r: Result<(), StorageError>) {
        let now = current_time();
        self.add_record_at(fields, fingerprint, team, now.as_str())
    }

    fn query(
        &self,
        selections: &[(Option<String>, String)],
        default_type: Option<RecordType>,
    ) -> (r: Result<Vec<Record>, StorageError>) {
        let ghost all = self.records.deep_view();
        let ghost picks = selections.deep_view();
        let ghost kind = default_type.deep_view();
        let ghost verdict = |e: Entry| picked(e, picks, kind);
        let type_wanted = type_asked(selections);
        let mut results: Vec<Record> = Vec::new();
        let mut i: usize = 0;
        proof {
            lemma_chosen_none(all, verdict);
            assert(results.deep_view() =~= Seq::<Entry>::empty());
        }
        while i < self.records.len()
            invariant
                i <= self.records@.len(),
                all == self.records.deep_view(),
                all == self@.records,
                picks == selections.deep_view(),
                kind == default_type.deep_view(),
                verdict == (|e: Entry| picked(e, picks, kind)),
                type_wanted == asks_for_type(picks),
                chosen(all.take(i as int), verdict) == Ok::<Seq<Entry>, Failure>(
                    results.deep_view(),
                ),
            decreases self.records.len() - i,
        {
            let record = &self.records[i];
            proof {
                assert(all[i as int] == record@);
                lemma_chosen_step(all, verdict, i as int);
            }
            match Self::picks_out(record, selections, &default_type, type_wanted) {
                Ok(true) => {
                    let ghost before = results.deep_view();
                    let copy = record.clone();
                    results.push(copy);
                    proof {
                        assert(results.deep_view() =~= before.push(record@));
                    }
                },
                Ok(false) => {},
                Err(e) => {
                    proof {
                        lemma_chosen_failure(all, verdict, i + 1);
                    }
                    return Err(e);
                },
            }
            i = i + 1;
        }
        proof {
            assert(all.take(i as int) =~= all);
        }
        Ok(results)
    }

    fn upsert_record(
        &mut self,
        fields: Vec<(String, String)>,
        fingerprint: Option<String>,
        team: Option<String>,
    ) -> (r: Result<UpsertOutcome, StorageError>) {
        let now = current_time();
        self.upsert_record_at(fields, fingerprint, team, now.as_str())
    }

    fn delete_record(
        &mut self,
        selections: &[(Option<String>, String)],
        fingerprint: Option<String>,
        teams: &[String],
        roles: &[String],
    ) -> (r: Result<usize, StorageError>) {
        let is_admin = text_listed(roles, "admin");
        let ghost picks = selections.deep_view();
        let ghost fp = fingerprint.deep_view();
        let ghost ts = teams.deep_view();
        let ghost rs = roles.deep_view();
        proof {
            let f = |e: Entry| targeted(e, picks, fp, ts, is_admin);
            let g = |e: Entry| targeted(e, picks, fp, ts, rs.contains("admin"@));
            assert(f =~= g);
        }
        match self.targets(selections, &fingerprint, teams, is_admin) {
            Ok(ids) => {
                let ghost gone = chosen(
                    self@.records,
                    |e: Entry| targeted(e, picks, fp, ts, is_admin),
                )->Ok_0;
                proof {
                    lemma_ids(ids@, gone);
                    let f = |e: Entry| !id_set(ids@).contains(e.id);
                    let g = |e: Entry| !ids_of(gone).contains(e.id);
                    assert(f =~= g);
                }
                let count = ids.len();
                self.drop_listed(&ids);
                Ok(count)
            },
            Err(e) => Err(e),
        }
    }

    fn change_record(
        &mut self,
        selections: &[(Option<String>, String)],
        modifications: &[(String, String)],
        fingerprint: Option<String>,
        teams: &[String],
    ) -> (r: Result<usize, StorageError>) {
        if type_touched(modifications) {
            return Err(
                StorageError::InvalidArgument(
                    "type cannot be modified via change - it is set once at record creation".to_string(),
                ),
            );
        }
        match validate_fields(modifications) {
            Ok(()) => {},
            Err(e) => {
                return Err(e);
            },
        }
        let ghost picks = selections.deep_view();
        let ghost fp = fingerprint.deep_view();
        let ghost ts = teams.deep_view();
        match self.targets(selections, &fingerprint, teams, false) {
            Ok(ids) => {
                let ghost changed = chosen(
                    self@.records,
                    |e: Entry| targeted(e, picks, fp, ts, false),
                )->Ok_0;
                proof {
                    lemma_ids(ids@, changed);
                    let f = |e: Entry|
                        if id_set(ids@).contains(e.id) {
                            refreshed_fields(e, modifications.deep_view())
                        } else {
                            e
                        };
                    let g = |e: Entry|
                        if ids_of(changed).contains(e.id) {
                            refreshed_fields(e, modifications.deep_view())
                        } else {
                            e
                        };
                    assert(f =~= g);
                }
                let count = ids.len();
                self.change_listed(&ids, modifications);
                Ok(count)
            },
            Err(e) => Err(e),
        }
    }
}

// ---------------------------------------------------------------------------
// What holds of records in memory
// ---------------------------------------------------------------------------

/// A refused request leaves the records as they are, and what is counted is
/// their number. A request that is carried out reports what it did: an
/// addition one record more, a deletion and a change the number of records that
/// answer.
pub proof fn law_memory_requests(
    s: &MemoryStorage,
    after: &MemoryStorage,
    fs: Seq<Pair>,
    picks: Seq<Pick>,
    fingerprint: Option<Seq<char>>,
    team: Option<Seq<char>>,
    teams: Seq<Seq<char>>,
    roles: Seq<Seq<char>>,
)
    ensures
        forall|n: usize| #[trigger] s.may_count(n) ==> n == s@.records.len(),
        forall|r: Result<(), Failure>| #[trigger]
            s.may_add(after, fs, fingerprint, team, r) ==> (if r is Ok {
                after@.records.len() == s@.records.len() + 1
            } else {
                after@ == s@
            }),
        forall|r: Result<UpsertOutcome, Failure>| #[trigger]
            s.may_upsert(after, fs, fingerprint, team, r) ==> (match r {
                Ok(UpsertOutcome::Created) => after@.records.len() == s@.records.len() + 1,
                Ok(UpsertOutcome::Updated) => after@.records.len() == s@.records.len(),
                Err(_) => after@ == s@,
            }),
        forall|r: Result<usize, Failure>| #[trigger]
            s.may_delete(after, picks, fingerprint, teams, roles, r) ==> (match r {
                Ok(n) => n == s@.records.filter(
                    |e: Entry| answers_all(e, picks) == Ok::<bool, Failure>(true),
                ).len(),
                Err(_) => after@ == s@,
            }),
        forall|r: Result<usize, Failure>| #[trigger]
            s.may_change(after, picks, fs, fingerprint, teams, r) ==> (match r {
                Ok(n) => n == s@.records.filter(
                    |e: Entry| answers_all(e, picks) == Ok::<bool, Failure>(true),
                ).len() && after@.records.len() == s@.records.len(),
                Err(_) => after@ == s@,
            }),
{
    crate::laws::lemma_position(s@.records, fs);
    crate::outcomes::law_counts(s@, picks, fs, fingerprint, teams, roles);
}

/// Records in memory do what the operations on them come to: a query gives what
/// it finds of the kind that it is about, a deletion and a change leave the
/// records that they come to and report their number, and an addition leaves
/// those that it comes to at some time of day.
pub proof fn law_memory_outcomes(
    s: &MemoryStorage,
    after: &MemoryStorage,
    fs: Seq<Pair>,
    picks: Seq<Pick>,
    kind: Option<Kind>,
    fingerprint: Option<Seq<char>>,
    team: Option<Seq<char>>,
    teams: Seq<Seq<char>>,
    roles: Seq<Seq<char>>,
)
    ensures
        forall|r: Result<Seq<Entry>, Failure>| #[trigger]
            s.may_answer(picks, kind, r) ==> r == query_outcome(s@.records, picks, kind),
        forall|r: Result<usize, Failure>| #[trigger]
            s.may_delete(after, picks, fingerprint, teams, roles, r) ==> (match r {
                Ok(n) => delete_outcome(s@, picks, fingerprint, teams, roles) == Ok::<
                    (Store, nat),
                    Failure,
                >((after@, n as nat)),
                Err(f) => delete_outcome(s@, picks, fingerprint, teams, roles) == Err::<
                    (Store, nat),
                    Failure,
                >(f),
            }),
        forall|r: Result<usize, Failure>| #[trigger]
            s.may_change(after, picks, fs, fingerprint, teams, r) ==> (match r {
                Ok(n) => change_outcome(s@, picks, fs, fingerprint, teams) == Ok::<
                    (Store, nat),
                    Failure,
                >((after@, n as nat)),
                Err(f) => change_outcome(s@, picks, fs, fingerprint, teams) == Err::<
                    (Store, nat),
                    Failure,
                >(f),
            }),
        s.may_add(after, fs, fingerprint, team, Ok(())) ==> exists|now: Seq<char>|
            is_timestamp(now) && #[trigger] add_outcome(s@, fs, fingerprint, team, now) == Ok::<
                Store,
                Failure,
            >(after@),
        forall|done: UpsertOutcome| #[trigger]
            s.may_upsert(after, fs, fingerprint, team, Ok(done)) ==> exists|now: Seq<char>|
                is_timestamp(now) && #[trigger] upsert_outcome(s@, fs, fingerprint, team, now)
                    == Ok::<(Store, UpsertOutcome), Failure>((after@, done)),
{
    if s.may_add(after, fs, fingerprint, team, Ok(())) {
        let now = choose|now: Seq<char>|
            #![trigger is_timestamp(now)]
            is_timestamp(now) && match add_outcome(s@, fs, fingerprint, team, now) {
                Ok(store) => after@ == store,
                Err(e) => false,
            };
        assert(add_outcome(s@, fs, fingerprint, team, now) == Ok::<Store, Failure>(after@));
    }
    assert forall|done: UpsertOutcome| #[trigger]
        s.may_upsert(after, fs, fingerprint, team, Ok(done)) implies exists|now: Seq<char>|
        is_timestamp(now) && #[trigger] upsert_outcome(s@, fs, fingerprint, team, now) == Ok::<
            (Store, UpsertOutcome),
            Failure,
        >((after@, done)) by {
        let now = choose|now: Seq<char>|
            #![trigger is_timestamp(now)]
            is_timestamp(now) && match upsert_outcome(s@, fs, fingerprint, team, now) {
                Ok((store, made)) => made == done && after@ == store,
                Err(e) => false,
            };
        assert(upsert_outcome(s@, fs, fingerprint, team, now) == Ok::<
            (Store, UpsertOutcome),
            Failure,
        >((after@, done)));
    }
}

} // verus!
