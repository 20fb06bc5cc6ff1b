//! Records that outlive the server: what is read from a file is put in order,
//! and what changes is queued to be written.

use vstd::prelude::*;

use crate::clock::is_timestamp;
use crate::error::Failure;
use crate::error::StorageError;
use crate::laws::apart;
use crate::laws::distinct_ids;
use crate::laws::law_change_keeps_type;
use crate::laws::law_upsert_keeps_type;
use crate::laws::lemma_filter_members;
use crate::laws::lemma_names_differ;
use crate::laws::lemma_position;
use crate::laws::well_numbered;
use crate::record::Entry;
use crate::record::Kind;
use crate::record::Record;
use crate::record::RecordType;
use crate::record::UpsertOutcome;
use crate::record::add_once;
use crate::record::is_address;
use crate::record::kind_of;
use crate::record::push_once;
use crate::record::values_of;
use crate::record::with_fields;
use crate::selection::Pick;
use crate::storage::MemoryStorage;
use crate::storage::Storage;
use crate::store::Pair;
use crate::store::Store;
use crate::store::add_outcome;
use crate::store::change_outcome;
use crate::store::chosen;
use crate::store::delete_outcome;
use crate::store::ids_of;
use crate::store::new_entry;
use crate::store::query_outcome;
use crate::store::refreshed_fields;
use crate::store::targeted;
use crate::store::upsert_outcome;
use crate::store::upsert_target;

verus! {

/// A record whose kind agrees with its `type` field.
pub open spec fn healed_kind(e: Entry) -> Entry {
    if e.fields.contains_key("type"@) {
        Entry { kind: Some(kind_of(e.fields["type"@])), ..e }
    } else {
        e
    }
}

/// A record with a single address among those of its name.
pub open spec fn moved(e: Entry, name: Seq<char>) -> Entry {
    if e.fields.contains_key(name) {
        Entry {
            fields: e.fields.remove(name),
            multi: e.multi.insert(name, add_once(values_of(e.multi, name), e.fields[name])),
            ..e
        }
    } else {
        e
    }
}

/// A record put in order: its kind agrees with its `type` field, and no
/// address stands where a single value does.
pub open spec fn healed(e: Entry) -> Entry {
    moved(moved(healed_kind(e), "ip_addr"@), "mac_addr"@)
}

/// A record that is in order.
pub open spec fn in_order(e: Entry) -> bool {
    &&& e.fields.contains_key("type"@) ==> e.kind == Some(kind_of(e.fields["type"@]))
    &&& !e.fields.contains_key("ip_addr"@)
    &&& !e.fields.contains_key("mac_addr"@)
}

/// The records put in order.
pub open spec fn all_healed(records: Seq<Entry>) -> Seq<Entry> {
    records.map_values(|e: Entry| healed(e))
}

/// Every record is in order.
pub open spec fn all_in_order(records: Seq<Entry>) -> bool {
    forall|i: int| 0 <= i < records.len() ==> in_order(#[trigger] records[i])
}

/// The largest identifier; zero where there is none.
pub open spec fn max_id(records: Seq<Entry>) -> nat
    decreases records.len(),
{
    if records.len() == 0 {
        0
    } else if records.last().id > max_id(records.drop_last()) {
        records.last().id
    } else {
        max_id(records.drop_last())
    }
}

/// A directory with a queue of what is still to be written, oldest first.
pub struct Filed {
    pub store: Store,
    pub queue: Seq<Seq<Entry>>,
}

/// A directory with the records that were read from its file: put in order,
/// and queued to be written where they were not.
pub open spec fn loaded(stored: Seq<Entry>) -> Filed {
    Filed {
        store: Store { records: all_healed(stored), next_id: max_id(stored) + 1 },
        queue: if all_in_order(stored) {
            Seq::empty()
        } else {
            seq![all_healed(stored)]
        },
    }
}

/// A directory after an operation on its records.
pub open spec fn after_write(before: Filed, store: Store, written: bool) -> Filed {
    Filed {
        store,
        queue: if written {
            before.queue.push(store.records)
        } else {
            before.queue
        },
    }
}

/// Records in memory, and a queue of what is to be written to a file.
pub struct FileStorage {
    memory: MemoryStorage,
    path: String,
    queue: Vec<Vec<Record>>,
}

impl View for FileStorage {
    type V = Filed;

    closed spec fn view(&self) -> Filed {
        Filed { store: self.memory@, queue: self.queue.deep_view() }
    }
}

/// Puts a record in order, and says whether it was not.
fn heal(record: &mut Record) -> (changed: bool)
    ensures
        final(record)@ == healed(old(record)@),
        changed == !in_order(old(record)@),
{
    let ghost start = record@;
    let mut changed: bool = false;
    let parsed = match record.fields.get("type") {
        Some(name) => Some(RecordType::from(name.as_str())),
        None => None,
    };
    if let Some(parsed) = parsed {
        let stale = match &record.record_type {
            Some(known) => !known.same_as(&parsed),
            None => true,
        };
        if stale {
            record.record_type = Some(parsed);
            changed = true;
        }
    }
    proof {
        assert(record@ == healed_kind(start));
    }
    if let Some(value) = record.fields.remove("ip_addr") {
        push_once(&mut record.multi_fields, "ip_addr", value.as_str());
        changed = true;
    }
    proof {
        assert(record@.fields =~= moved(healed_kind(start), "ip_addr"@).fields);
        assert(record@ == moved(healed_kind(start), "ip_addr"@));
        reveal_strlit("ip_addr");
        reveal_strlit("mac_addr");
        assert("ip_addr"@.len() != "mac_addr"@.len());
    }
    if let Some(value) = record.fields.remove("mac_addr") {
        push_once(&mut record.multi_fields, "mac_addr", value.as_str());
        changed = true;
    }
    proof {
        assert(record@.fields =~= healed(start).fields);
    }
    changed
}

impl FileStorage {
    /// A directory that is kept in a file, with what was read from there:
    /// nothing where there was no file, or none that could be read.
    pub fn new(path: String, stored: Option<Vec<Record>>) -> (s: Self)
        requires
            stored matches Some(records) ==> max_id(records.deep_view()) < usize::MAX,
        ensures
            s@ == match stored {
                Some(records) => loaded(records.deep_view()),
                None => (Filed {
                    store: Store { records: Seq::empty(), next_id: 1 },
                    queue: Seq::empty(),
                }),
            },
            s.file() == path@,
    {
        let records = match stored {
            Some(records) => records,
            None => {
                let s = FileStorage { memory: MemoryStorage::new(), path, queue: Vec::new() };
                proof {
                    assert(s.queue.deep_view() =~= Seq::empty());
                }
                return s;
            },
        };
        let ghost all = records.deep_view();
        let rest: Vec<Record> = records;
        let mut ordered: Vec<Record> = Vec::new();
        let mut largest: usize = 0;
        let mut changed: bool = false;
        let mut i: usize = 0;
        proof {
            assert(ordered.deep_view() =~= all_healed(all.take(0)));
        }
        while i < rest.len()
            invariant
                i <= rest@.len(),
                all == rest.deep_view(),
                ordered.deep_view() == all_healed(all.take(i as int)),
                largest == max_id(all.take(i as int)),
                changed == !all_in_order(all.take(i as int)),
            decreases rest.len() - i,
        {
            proof {
                assert(all.take(i + 1).drop_last() =~= all.take(i as int));
                assert(all.take(i + 1).last() == rest@[i as int]@);
                assert(all[i as int] == rest@[i as int]@);
            }
            let mut record = rest[i].clone();
            if record.id > largest {
                largest = record.id;
            }
            let ghost was = changed;
            let healed_now = heal(&mut record);
            let ghost before = ordered.deep_view();
            if healed_now {
                changed = true;
            }
            proof {
                assert(all_healed(all.take(i + 1)) =~= before.push(record@));
                if was {
                    let j = choose|j: int|
                        0 <= j < i && !in_order(#[trigger] all.take(i as int)[j]);
                    assert(all.take(i + 1)[j] == all.take(i as int)[j]);
                } else {
                    assert forall|j: int| 0 <= j < i implies in_order(
                        #[trigger] all.take(i + 1)[j],
                    ) by {
                        assert(in_order(all.take(i as int)[j]));
                    }
                }
                assert(all.take(i + 1)[i as int] == all[i as int]);
            }
            ordered.push(record);
            proof {
                assert(ordered.deep_view() =~= before.push(record@));
            }
            i = i + 1;
        }
        proof {
            assert(all.take(i as int) =~= all);
        }
        let memory = MemoryStorage::with_records(ordered, largest + 1);
        let mut s = FileStorage { memory, path, queue: Vec::new() };
        proof {
            assert(s.queue.deep_view() =~= Seq::empty());
        }
        if changed {
            s.queue_persistence();
            proof {
                assert(s@.queue =~= seq![all_healed(all)]);
            }
        }
        s
    }

    /// The file that the records are kept in.
    pub closed spec fn file(&self) -> Seq<char> {
        self.path@
    }

    /// The file that the records are kept in.
    pub fn path(&self) -> (p: &str)
        ensures
            p@ == self.file(),
    {
        self.path.as_str()
    }

    /// Whether there is an identifier left for one more record.
    pub fn has_space(&self) -> (b: bool)
        ensures
            b == self.has_room(),
    {
        self.memory.has_space()
    }

    /// Queues the records to be written.
    fn queue_persistence(&mut self)
        ensures
            final(self)@ == after_write(old(self)@, old(self)@.store, true),
            final(self).file() == old(self).file(),
    {
        let ghost before = self.queue.deep_view();
        let records = self.memory.snapshot();
        let ghost seen = records.deep_view();
        self.queue.push(records);
        proof {
            assert(self.queue.deep_view() =~= before.push(seen));
        }
    }

    /// Hands over what is to be written, oldest first, and empties the queue.
    pub fn take_queue(&mut self) -> (q: Vec<Vec<Record>>)
        ensures
            q.deep_view() == old(self)@.queue,
            final(self)@ == (Filed { queue: Seq::empty(), ..old(self)@ }),
            final(self).file() == old(self).file(),
    {
        let mut q: Vec<Vec<Record>> = Vec::new();
        std::mem::swap(&mut q, &mut self.queue);
        proof {
            assert(self.queue.deep_view() =~= Seq::empty());
        }
        q
    }
}

impl Storage for FileStorage {
    open spec fn has_room(&self) -> bool {
        self@.store.next_id < usize::MAX
    }

    open spec fn may_count(&self, n: usize) -> bool {
        n == self@.store.records.len()
    }

    open spec fn may_answer(
        &self,
        picks: Seq<Pick>,
        default_kind: Option<Kind>,
        r: Result<Seq<Entry>, Failure>,
    ) -> bool {
        r == query_outcome(self@.store.records, picks, default_kind)
    }

    open spec fn may_add(
        &self,
        after: &Self,
        fs: Seq<Pair>,
        fingerprint: Option<Seq<char>>,
        team: Option<Seq<char>>,
        r: Result<(), Failure>,
    ) -> bool {
        exists|now: Seq<char>|
            #![trigger is_timestamp(now)]
            is_timestamp(now) && after.file() == self.file() && match add_outcome(self@.store, fs, fingerprint, team, now) {
                Ok(store) => r is Ok && after@ == after_write(self@, store, true),
                Err(e) => r == Err::<(), Failure>(e) && after@ == self@,
            }
    }

    open spec fn may_upsert(
        &self,
        after: &Self,
        fs: Seq<Pair>,
        fingerprint: Option<Seq<char>>,
        team: Option<Seq<char>>,
        r: Result<UpsertOutcome, Failure>,
    ) -> bool {
        exists|now: Seq<char>|
            #![trigger is_timestamp(now)]
            is_timestamp(now) && after.file() == self.file() && match upsert_outcome(self@.store, fs, fingerprint, team, now) {
                Ok((store, done)) => r == Ok::<UpsertOutcome, Failure>(done) && after@
                    == after_write(self@, store, true),
                Err(e) => r == Err::<UpsertOutcome, Failure>(e) && after@ == self@,
            }
    }

    open spec fn may_delete(
        &self,
        after: &Self,
        picks: Seq<Pick>,
        fingerprint: Option<Seq<char>>,
        teams: Seq<Seq<char>>,
        roles: Seq<Seq<char>>,
        r: Result<usize, Failure>,
    ) -> bool {
        after.file() == self.file() && match delete_outcome(self@.store, picks, fingerprint, teams, roles) {
            Ok((store, n)) => r matches Ok(count) && count == n && after@ == after_write(
                self@,
                store,
                n > 0,
            ),
            Err(e) => r == Err::<usize, Failure>(e) && after@ == self@,
        }
    }

    open spec fn may_change(
        &self,
        after: &Self,
        picks: Seq<Pick>,
        mods: Seq<Pair>,
        fingerprint: Option<Seq<char>>,
        teams: Seq<Seq<char>>,
        r: Result<usize, Failure>,
    ) -> bool {
        after.file() == self.file() && match change_outcome(self@.store, picks, mods, fingerprint, teams) {
            Ok((store, n)) => r matches Ok(count) && count == n && after@ == after_write(
                self@,
                store,
                n > 0,
            ),
            Err(e) => r == Err::<usize, Failure>(e) && after@ == self@,
        }
    }

    fn record_count(&self) -> (n: usize) {
        self.memory.record_count()
    }

    fn add_record(
        &mut self,
        fields: Vec<(String, String)>,
        fingerprint: Option<String>,
        team: Option<String>,
    ) -> (r: Result<(), StorageError>) {
        let r = self.memory.add_record(fields, fingerprint, team);
        if r.is_ok() {
            self.queue_persistence();
        }
        r
    }

    fn query(
        &self,
        selections: &[(Option<String>, String)],
        default_type: Option<RecordType>,
    ) -> (r: Result<Vec<Record>, StorageError>) {
        self.memory.query(selections, default_type)
    }

    fn upsert_record(
        &mut self,
        fields: Vec<(String, String)>,
        fingerprint: Option<String>,
        team: Option<String>,
    ) -> (r: Result<UpsertOutcome, StorageError>) {
        let r = self.memory.upsert_record(fields, fingerprint, team);
        if r.is_ok() {
            self.queue_persistence();
        }
        r
    }

    fn delete_record(
        &mut self,
        selections: &[(Option<String>, String)],
        fingerprint: Option<String>,
        teams: &[String],
        roles: &[String],
    ) -> (r: Result<usize, StorageError>) {
        match self.memory.delete_record(selections, fingerprint, teams, roles) {
            Ok(count) => {
                if count > 0 {
                    self.queue_persistence();
                }
                Ok(count)
            },
            Err(e) => Err(e),
        }
    }

    fn change_record(
        &mut self,
        selections: &[(Option<String>, String)],
        modifications: &[(String, String)],
        fingerprint: Option<String>,
        teams: &[String],
    ) -> (r: Result<usize, StorageError>) {
        match self.memory.change_record(selections, modifications, fingerprint, teams) {
            Ok(count) => {
                if count > 0 {
                    self.queue_persistence();
                }
                Ok(count)
            },
            Err(e) => Err(e),
        }
    }
}

// ---------------------------------------------------------------------------
// What holds of files
// ---------------------------------------------------------------------------

/// A record that was put in order is in order, and putting it in order again
/// changes nothing.
pub proof fn law_healing_settles(e: Entry)
    ensures
        in_order(healed(e)),
        healed(healed(e)) == healed(e),
{
    lemma_names();
    law_in_order_stays(healed(e));
}

/// A record that is in order stays as it is.
pub proof fn law_in_order_stays(e: Entry)
    ensures
        in_order(e) ==> healed(e) == e,
{
}

proof fn lemma_names()
    ensures
        "type"@ != "ip_addr"@,
        "type"@ != "mac_addr"@,
        "ip_addr"@ != "mac_addr"@,
        "last_seen_at"@ != "ip_addr"@,
        "last_seen_at"@ != "mac_addr"@,
{
    reveal_strlit("last_seen_at");
    reveal_strlit("type");
    reveal_strlit("ip_addr");
    reveal_strlit("mac_addr");
    assert("type"@.len() == 4);
    assert("ip_addr"@.len() == 7);
    assert("mac_addr"@.len() == 8);
    assert("last_seen_at"@.len() == 12);
}

proof fn lemma_max_id(s: Store)
    requires
        well_numbered(s),
        s.next_id >= 1,
    ensures
        max_id(s.records) < s.next_id,
        forall|i: int| 0 <= i < s.records.len() ==> (#[trigger] s.records[i]).id <= max_id(s.records),
    decreases s.records.len(),
{
    if s.records.len() > 0 {
        let front = Store { records: s.records.drop_last(), next_id: s.next_id };
        assert(well_numbered(front)) by {
            assert forall|i: int, j: int| 0 <= i < j < front.records.len() implies (
            #[trigger] front.records[i]).id < (#[trigger] front.records[j]).id by {
                assert(s.records[i].id < s.records[j].id);
            }
            assert forall|i: int| 0 <= i < front.records.len() implies (
            #[trigger] front.records[i]).id < s.next_id by {
                assert(s.records[i].id < s.next_id);
            }
        }
        lemma_max_id(front);
        let last = s.records.len() - 1;
        assert(s.records[last].id < s.next_id);
        assert forall|i: int| 0 <= i < s.records.len() implies (#[trigger] s.records[i]).id
            <= max_id(s.records) by {
            if i < last {
                assert(front.records[i].id <= max_id(front.records));
            }
        }
    }
}

/// What was written is what is read: a directory that is loaded from records in
/// order holds the same records, and has nothing to write.
pub proof fn law_reload(records: Seq<Entry>)
    requires
        all_in_order(records),
    ensures
        loaded(records).store.records == records,
        loaded(records).queue == Seq::<Seq<Entry>>::empty(),
{
    let l = loaded(records).store;
    assert forall|i: int| 0 <= i < records.len() implies #[trigger] l.records[i]
        == records[i] by {
        assert(in_order(records[i]));
        law_in_order_stays(records[i]);
    }
    assert(l.records =~= records);
}

/// A directory that is loaded from the records of another, which were given out
/// in ascending order, goes on numbering without using an identifier twice.
pub proof fn law_reload_numbers(s: Store)
    requires
        well_numbered(s),
        s.next_id >= 1,
    ensures
        loaded(s.records).store.next_id <= s.next_id,
        well_numbered(loaded(s.records).store),
{
    lemma_max_id(s);
    let l = loaded(s.records).store;
    assert forall|i: int| 0 <= i < l.records.len() implies (#[trigger] l.records[i]).id
        == s.records[i].id by {}
    assert forall|i: int, j: int| 0 <= i < j < l.records.len() implies (#[trigger] l.records[i]).id
        < (#[trigger] l.records[j]).id by {
        assert(s.records[i].id < s.records[j].id);
    }
    assert forall|i: int| 0 <= i < l.records.len() implies (#[trigger] l.records[i]).id
        < l.next_id by {
        assert(s.records[i].id <= max_id(s.records));
    }
}

/// A directory that is loaded from records with identifiers of their own keeps
/// them apart, in whatever order they came.
pub proof fn law_loaded_apart(s: Store)
    requires
        distinct_ids(s),
    ensures
        apart(loaded(s.records).store),
{
    lemma_below_max(s.records);
    let l = loaded(s.records).store;
    assert forall|i: int, j: int| 0 <= i < j < l.records.len() implies (#[trigger] l.records[i]).id
        != (#[trigger] l.records[j]).id by {
        assert(s.records[i].id != s.records[j].id);
    }
    assert forall|i: int| 0 <= i < l.records.len() implies (#[trigger] l.records[i]).id
        < l.next_id by {
        assert(s.records[i].id <= max_id(s.records));
    }
}

proof fn lemma_below_max(records: Seq<Entry>)
    ensures
        forall|i: int| 0 <= i < records.len() ==> (#[trigger] records[i]).id <= max_id(records),
    decreases records.len(),
{
    if records.len() > 0 {
        lemma_below_max(records.drop_last());
        assert forall|i: int| 0 <= i < records.len() implies (#[trigger] records[i]).id <= max_id(
            records,
        ) by {
            if i < records.len() - 1 {
                assert(records.drop_last()[i].id <= max_id(records.drop_last()));
            }
        }
    }
}

/// Loading puts every record in order, keeps their number and their
/// identifiers, and what it then queues to be written is what it holds.
pub proof fn law_load_heals(stored: Seq<Entry>)
    ensures
        all_in_order(loaded(stored).store.records),
        loaded(stored).store.records.len() == stored.len(),
        forall|i: int|
            0 <= i < stored.len() ==> (#[trigger] loaded(stored).store.records[i]).id
                == stored[i].id,
        loaded(stored).queue.len() > 0 ==> loaded(stored).queue.last()
            == loaded(stored).store.records,
{
    assert forall|i: int| 0 <= i < stored.len() implies in_order(
        #[trigger] loaded(stored).store.records[i],
    ) by {
        law_healing_settles(stored[i]);
    }
}

proof fn lemma_no_plain_address(e: Entry, fs: Seq<Pair>)
    requires
        !e.fields.contains_key("ip_addr"@),
        !e.fields.contains_key("mac_addr"@),
    ensures
        !with_fields(e, fs).fields.contains_key("ip_addr"@),
        !with_fields(e, fs).fields.contains_key("mac_addr"@),
        !refreshed_fields(e, fs).fields.contains_key("ip_addr"@),
        !refreshed_fields(e, fs).fields.contains_key("mac_addr"@),
    decreases fs.len(),
{
    if fs.len() > 0 {
        lemma_no_plain_address(e, fs.drop_last());
    }
}

/// A record that is added is in order.
pub proof fn law_added_in_order(
    id: nat,
    fs: Seq<Pair>,
    fingerprint: Option<Seq<char>>,
    team: Option<Seq<char>>,
    now: Seq<char>,
)
    ensures
        in_order(new_entry(id, fs, fingerprint, team, now)),
{
    let blank = Entry {
        id,
        kind: None,
        fields: Map::empty(),
        multi: Map::empty(),
        fingerprint,
        team,
    };
    lemma_no_plain_address(blank, fs);
    reveal_strlit("created_at");
    reveal_strlit("last_seen_at");
    reveal_strlit("ip_addr");
    reveal_strlit("mac_addr");
    assert("created_at"@.len() == 10);
    assert("last_seen_at"@.len() == 12);
    assert("ip_addr"@.len() == 7);
    assert("mac_addr"@.len() == 8);
}

/// An addition keeps the records in order.
pub proof fn law_add_keeps_order(
    s: Store,
    fs: Seq<Pair>,
    fingerprint: Option<Seq<char>>,
    team: Option<Seq<char>>,
    now: Seq<char>,
)
    requires
        all_in_order(s.records),
    ensures
        add_outcome(s, fs, fingerprint, team, now) matches Ok(after) ==> all_in_order(
            after.records,
        ),
{
    law_added_in_order(s.next_id, fs, fingerprint, team, now);
}

/// The last value given for a name.
pub open spec fn last_value(fs: Seq<Pair>, name: Seq<char>) -> Option<Seq<char>>
    decreases fs.len(),
{
    if fs.len() == 0 {
        None
    } else if fs.last().0 == name {
        Some(fs.last().1)
    } else {
        last_value(fs.drop_last(), name)
    }
}

/// Bringing a record up to date leaves its kind in agreement with its type. A
/// record that has a type keeps it. One that has none must not be given a type
/// of another kind than its own, for its kind stays.
pub open spec fn fits_kind(e: Entry, fs: Seq<Pair>) -> bool {
    !e.fields.contains_key("type"@) ==> (last_value(fs, "type"@) matches Some(name) ==> e.kind
        == Some(kind_of(name)))
}

/// An upsert leaves every record's kind in agreement with its type.
pub open spec fn fits_kinds(s: Store, fs: Seq<Pair>) -> bool {
    upsert_target(s.records, fs) < s.records.len() ==> fits_kind(
        s.records[upsert_target(s.records, fs)],
        fs,
    )
}

proof fn lemma_last_value(e: Entry, fs: Seq<Pair>, name: Seq<char>)
    requires
        !is_address(name),
        name != "source"@,
    ensures
        match last_value(fs, name) {
            Some(value) => refreshed_fields(e, fs).fields.contains_key(name) && refreshed_fields(
                e,
                fs,
            ).fields[name] == value,
            None => refreshed_fields(e, fs).fields.contains_key(name) == e.fields.contains_key(name)
                && refreshed_fields(e, fs).fields[name] == e.fields[name],
        },
        refreshed_fields(e, fs).kind == e.kind,
    decreases fs.len(),
{
    if fs.len() > 0 {
        lemma_last_value(e, fs.drop_last(), name);
    }
}

/// An upsert keeps the records in order, unless it gives a record without a
/// type one that is not of its kind.
pub proof fn law_upsert_keeps_order(
    s: Store,
    fs: Seq<Pair>,
    fingerprint: Option<Seq<char>>,
    team: Option<Seq<char>>,
    now: Seq<char>,
)
    requires
        all_in_order(s.records),
        fits_kinds(s, fs),
    ensures
        upsert_outcome(s, fs, fingerprint, team, now) matches Ok((after, done)) ==> all_in_order(
            after.records,
        ),
{
    let i = upsert_target(s.records, fs);
    lemma_position(s.records, fs);
    if i < s.records.len() {
        if let Ok((after, done)) = upsert_outcome(s, fs, fingerprint, team, now) {
            let e = s.records[i];
            assert(in_order(e));
            let owned = Entry {
                fingerprint: if e.fingerprint is None {
                    fingerprint
                } else {
                    e.fingerprint
                },
                team: if e.team is None {
                    team
                } else {
                    e.team
                },
                ..e
            };
            lemma_no_plain_address(owned, fs);
            lemma_names();
            lemma_names_differ();
            if e.fields.contains_key("type"@) {
                law_upsert_keeps_type(s, fs, fingerprint, team, now);
            } else {
                lemma_last_value(owned, fs, "type"@);
            }
            assert(in_order(after.records[i]));
            assert forall|k: int| 0 <= k < after.records.len() implies in_order(
                #[trigger] after.records[k],
            ) by {
                assert(in_order(s.records[k]));
            }
        }
    } else {
        law_add_keeps_order(s, fs, fingerprint, team, now);
    }
}

/// A deletion keeps the records in order.
pub proof fn law_delete_keeps_order(
    s: Store,
    picks: Seq<Pick>,
    fingerprint: Option<Seq<char>>,
    teams: Seq<Seq<char>>,
    roles: Seq<Seq<char>>,
)
    requires
        all_in_order(s.records),
    ensures
        delete_outcome(s, picks, fingerprint, teams, roles) matches Ok((after, n)) ==> all_in_order(
            after.records,
        ),
{
    lemma_delete_members(s, picks, fingerprint, teams, roles);
    if let Ok((after, n)) = delete_outcome(s, picks, fingerprint, teams, roles) {
        assert forall|i: int| 0 <= i < after.records.len() implies in_order(
            #[trigger] after.records[i],
        ) by {
            assert(s.records.contains(after.records[i]));
        }
    }
}

/// What a deletion leaves was there before.
proof fn lemma_delete_members(
    s: Store,
    picks: Seq<Pick>,
    fingerprint: Option<Seq<char>>,
    teams: Seq<Seq<char>>,
    roles: Seq<Seq<char>>,
)
    ensures
        delete_outcome(s, picks, fingerprint, teams, roles) matches Ok((after, n)) ==> forall|i: int|
            0 <= i < after.records.len() ==> s.records.contains(#[trigger] after.records[i]),
{
    if let Ok((after, n)) = delete_outcome(s, picks, fingerprint, teams, roles) {
        let gone = chosen(
            s.records,
            |e: Entry| targeted(e, picks, fingerprint, teams, roles.contains("admin"@)),
        )->Ok_0;
        let keep = |e: Entry| !ids_of(gone).contains(e.id);
        assert(after.records == s.records.filter(keep));
        lemma_filter_members(s.records, keep);
        assert forall|i: int| 0 <= i < after.records.len() implies s.records.contains(
            #[trigger] after.records[i],
        ) by {
            assert(after.records.contains(after.records[i]));
        }
    }
}

/// A change keeps the records in order.
pub proof fn law_change_keeps_order(
    s: Store,
    picks: Seq<Pick>,
    mods: Seq<Pair>,
    fingerprint: Option<Seq<char>>,
    teams: Seq<Seq<char>>,
)
    requires
        all_in_order(s.records),
    ensures
        change_outcome(s, picks, mods, fingerprint, teams) matches Ok((after, n)) ==> all_in_order(
            after.records,
        ),
{
    if let Ok((after, n)) = change_outcome(s, picks, mods, fingerprint, teams) {
        assert forall|i: int| 0 <= i < after.records.len() implies in_order(
            #[trigger] after.records[i],
        ) by {
            assert(in_order(s.records[i]));
            lemma_no_plain_address(s.records[i], mods);
            law_change_keeps_type(s, picks, mods, fingerprint, teams, i);
        }
    }
}

// ---------------------------------------------------------------------------
// Restarts
// ---------------------------------------------------------------------------

/// One directory comes of another by an operation that succeeds: an addition,
/// an upsert that leaves kinds and types in agreement, a deletion or a change.
pub open spec fn one_write(s: Store, after: Store) -> bool {
    ||| exists|fs: Seq<Pair>, fingerprint: Option<Seq<char>>, team: Option<Seq<char>>, now: Seq<char>| #[trigger]
        add_outcome(s, fs, fingerprint, team, now) == Ok::<Store, Failure>(after)
    ||| exists|fs: Seq<Pair>, fingerprint: Option<Seq<char>>, team: Option<Seq<char>>, now: Seq<char>|
        fits_kinds(s, fs) && ((#[trigger] upsert_outcome(s, fs, fingerprint, team, now)) matches Ok(
            (left, done),
        ) && left == after)
    ||| exists|
        picks: Seq<Pick>,
        fingerprint: Option<Seq<char>>,
        teams: Seq<Seq<char>>,
        roles: Seq<Seq<char>>,
    |
        (#[trigger] delete_outcome(s, picks, fingerprint, teams, roles)) matches Ok((left, n))
            && left == after
    ||| exists|
        picks: Seq<Pick>,
        mods: Seq<Pair>,
        fingerprint: Option<Seq<char>>,
        teams: Seq<Seq<char>>,
    |
        (#[trigger] change_outcome(s, picks, mods, fingerprint, teams)) matches Ok((left, n))
            && left == after
}

/// A directory after each of a number of operations, from one on that is new or
/// was loaded from a file.
pub open spec fn history(stores: Seq<Store>) -> bool {
    &&& stores.len() > 0
    &&& stores[0].records.len() == 0 || exists|stored: Seq<Entry>|
        stores[0] == (#[trigger] loaded(stored)).store
    &&& forall|i: int| 0 < i < stores.len() ==> one_write(stores[i - 1], #[trigger] stores[i])
}

/// Every operation that succeeds leaves a directory that survives a restart:
/// the records that are then read from the file are those that were written,
/// in the same order.
pub proof fn law_write_survives(s: Store, after: Store)
    requires
        all_in_order(s.records),
        one_write(s, after),
    ensures
        all_in_order(after.records),
        loaded(after.records).store.records == after.records,
        loaded(after.records).queue == Seq::<Seq<Entry>>::empty(),
{
    if exists|fs: Seq<Pair>, fingerprint: Option<Seq<char>>, team: Option<Seq<char>>, now: Seq<char>| #[trigger]
        add_outcome(s, fs, fingerprint, team, now) == Ok::<Store, Failure>(after) {
        let (fs, fingerprint, team, now) = choose|
            fs: Seq<Pair>,
            fingerprint: Option<Seq<char>>,
            team: Option<Seq<char>>,
            now: Seq<char>,
        | #[trigger]
            add_outcome(s, fs, fingerprint, team, now) == Ok::<Store, Failure>(after);
        law_add_keeps_order(s, fs, fingerprint, team, now);
    } else if exists|
        fs: Seq<Pair>,
        fingerprint: Option<Seq<char>>,
        team: Option<Seq<char>>,
        now: Seq<char>,
    |
        fits_kinds(s, fs) && ((#[trigger] upsert_outcome(s, fs, fingerprint, team, now)) matches Ok(
            (left, done),
        ) && left == after) {
        let (fs, fingerprint, team, now) = choose|
            fs: Seq<Pair>,
            fingerprint: Option<Seq<char>>,
            team: Option<Seq<char>>,
            now: Seq<char>,
        |
            fits_kinds(s, fs) && ((#[trigger] upsert_outcome(s, fs, fingerprint, team, now)) matches Ok(
                (left, done),
            ) && left == after);
        law_upsert_keeps_order(s, fs, fingerprint, team, now);
    } else if exists|
        picks: Seq<Pick>,
        fingerprint: Option<Seq<char>>,
        teams: Seq<Seq<char>>,
        roles: Seq<Seq<char>>,
    |
        (#[trigger] delete_outcome(s, picks, fingerprint, teams, roles)) matches Ok((left, n))
            && left == after {
        let (picks, fingerprint, teams, roles) = choose|
            picks: Seq<Pick>,
            fingerprint: Option<Seq<char>>,
            teams: Seq<Seq<char>>,
            roles: Seq<Seq<char>>,
        |
            (#[trigger] delete_outcome(s, picks, fingerprint, teams, roles)) matches Ok((left, n))
                && left == after;
        law_delete_keeps_order(s, picks, fingerprint, teams, roles);
    } else {
        let (picks, mods, fingerprint, teams) = choose|
            picks: Seq<Pick>,
            mods: Seq<Pair>,
            fingerprint: Option<Seq<char>>,
            teams: Seq<Seq<char>>,
        |
            (#[trigger] change_outcome(s, picks, mods, fingerprint, teams)) matches Ok((left, n))
                && left == after;
        law_change_keeps_order(s, picks, mods, fingerprint, teams);
    }
    law_reload(after.records);
}

/// A directory survives a restart after any number of operations: what is read
/// from the file that was written last is what the directory held.
pub proof fn law_restart(stores: Seq<Store>)
    requires
        history(stores),
    ensures
        all_in_order(stores.last().records),
        loaded(stores.last().records).store.records == stores.last().records,
        loaded(stores.last().records).queue == Seq::<Seq<Entry>>::empty(),
    decreases stores.len(),
{
    if stores.len() == 1 {
        if stores[0].records.len() > 0 {
            let stored = choose|stored: Seq<Entry>| stores[0] == (#[trigger] loaded(stored)).store;
            law_load_heals(stored);
        }
        law_reload(stores[0].records);
    } else {
        let front = stores.drop_last();
        assert(history(front)) by {
            assert forall|i: int| 0 < i < front.len() implies one_write(
                front[i - 1],
                #[trigger] front[i],
            ) by {
                assert(one_write(stores[i - 1], stores[i]));
            }
        }
        law_restart(front);
        let last = stores.len() - 1;
        assert(one_write(stores[last - 1], stores[last]));
        law_write_survives(stores[last - 1], stores[last]);
    }
}

/// What the file holds once the queue is written, given what it holds now.
pub open spec fn written_out(f: Filed, file: Seq<Entry>) -> Seq<Entry> {
    if f.queue.len() == 0 {
        file
    } else {
        f.queue.last()
    }
}

/// A directory that was loaded from a file holds what the file does once the
/// queue is written.
pub proof fn law_file_agrees_at_start(stored: Seq<Entry>)
    ensures
        written_out(loaded(stored), stored) == loaded(stored).store.records,
{
    if all_in_order(stored) {
        assert forall|i: int| 0 <= i < stored.len() implies #[trigger] all_healed(stored)[i]
            == stored[i] by {
            assert(in_order(stored[i]));
            law_in_order_stays(stored[i]);
        }
        assert(all_healed(stored) =~= stored);
    }
}

/// Once the queue is written, the file holds what the directory does: additions
/// and upserts keep this, and so do deletions and changes, which are written
/// only where they met a record.
pub proof fn law_file_agrees(before: Filed, file: Seq<Entry>, store: Store, written: bool)
    requires
        written_out(before, file) == before.store.records,
        !written ==> store.records == before.store.records,
    ensures
        written_out(after_write(before, store, written), file) == store.records,
        after_write(before, store, written).store == store,
{
}

/// A deletion that meets no record leaves the directory as it was.
pub proof fn law_idle_delete(
    s: Store,
    picks: Seq<Pick>,
    fingerprint: Option<Seq<char>>,
    teams: Seq<Seq<char>>,
    roles: Seq<Seq<char>>,
)
    ensures
        delete_outcome(s, picks, fingerprint, teams, roles) matches Ok((after, n)) ==> (n == 0
            ==> after == s),
{
    if let Ok((after, n)) = delete_outcome(s, picks, fingerprint, teams, roles) {
        if n == 0 {
            let gone = chosen(
                s.records,
                |e: Entry| targeted(e, picks, fingerprint, teams, roles.contains("admin"@)),
            )->Ok_0;
            let keep = |e: Entry| !ids_of(gone).contains(e.id);
            assert(gone.map_values(|e: Entry| e.id).len() == 0);
            assert forall|e: Entry| #[trigger] keep(e) by {}
            lemma_all_kept(s.records, keep);
            assert(after.records == s.records.filter(keep));
        }
    }
}

proof fn lemma_all_kept(records: Seq<Entry>, keep: spec_fn(Entry) -> bool)
    requires
        forall|e: Entry| #[trigger] keep(e),
    ensures
        records.filter(keep) == records,
    decreases records.len(),
{
    reveal(Seq::filter);
    if records.len() > 0 {
        lemma_all_kept(records.drop_last(), keep);
        assert(keep(records.last()));
        assert(records.drop_last().push(records.last()) =~= records);
    }
}

/// A change that meets no record leaves the directory as it was.
pub proof fn law_idle_change(
    s: Store,
    picks: Seq<Pick>,
    mods: Seq<Pair>,
    fingerprint: Option<Seq<char>>,
    teams: Seq<Seq<char>>,
)
    ensures
        change_outcome(s, picks, mods, fingerprint, teams) matches Ok((after, n)) ==> (n == 0
            ==> after == s),
{
    if let Ok((after, n)) = change_outcome(s, picks, mods, fingerprint, teams) {
        if n == 0 {
            let changed = chosen(
                s.records,
                |e: Entry| targeted(e, picks, fingerprint, teams, false),
            )->Ok_0;
            assert(changed.map_values(|e: Entry| e.id).len() == 0);
            assert forall|i: int| 0 <= i < s.records.len() implies #[trigger] after.records[i]
                == s.records[i] by {
                assert(!ids_of(changed).contains(s.records[i].id));
            }
            assert(after.records =~= s.records);
        }
    }
}

// ---------------------------------------------------------------------------
// What putting in order and writing come to
// ---------------------------------------------------------------------------

/// What putting a record in order does to it: its kind becomes that of its
/// type, where it has one; an address that stands where a single value does
/// joins the list of its name, behind those that are there and once. Nothing
/// else of it changes.
pub proof fn law_healed(e: Entry, name: Seq<char>)
    ensures
        ({
            let h = healed(e);
            &&& h.id == e.id && h.fingerprint == e.fingerprint && h.team == e.team
            &&& e.fields.contains_key("type"@) ==> h.kind == Some(kind_of(e.fields["type"@]))
            &&& !e.fields.contains_key("type"@) ==> h.kind == e.kind
            &&& name != "ip_addr"@ && name != "mac_addr"@ ==> {
                &&& h.fields.contains_key(name) == e.fields.contains_key(name)
                &&& h.fields[name] == e.fields[name]
                &&& h.multi.contains_key(name) == e.multi.contains_key(name)
                &&& h.multi[name] == e.multi[name]
            }
            &&& name == "ip_addr"@ || name == "mac_addr"@ ==> {
                let had = if e.multi.contains_key(name) {
                    e.multi[name]
                } else {
                    Seq::empty()
                };
                &&& !h.fields.contains_key(name)
                &&& !e.fields.contains_key(name) ==> h.multi.contains_key(name)
                    == e.multi.contains_key(name) && h.multi[name] == e.multi[name]
                &&& e.fields.contains_key(name) ==> h.multi.contains_key(name) && h.multi[name] == (
                if had.contains(e.fields[name]) {
                    had
                } else {
                    had + seq![e.fields[name]]
                })
            }
        }),
{
    lemma_names();
    if (name == "ip_addr"@ || name == "mac_addr"@) && e.fields.contains_key(name) {
        let had = values_of(e.multi, name);
        assert(had.push(e.fields[name]) =~= had + seq![e.fields[name]]);
    }
}

/// What is read from a file: the records in their order, each put in order, and
/// the next number behind the largest that there is. It is written again only
/// where a record was not in order, and then as it is now.
pub proof fn law_loaded(stored: Seq<Entry>, i: int)
    ensures
        loaded(stored).store.records.len() == stored.len(),
        0 <= i < stored.len() ==> loaded(stored).store.records[i] == healed(stored[i])
            && stored[i].id < loaded(stored).store.next_id,
        stored.len() == 0 ==> loaded(stored).store.next_id == 1,
        stored.len() > 0 ==> exists|k: int|
            0 <= k < stored.len() && (#[trigger] stored[k]).id + 1 == loaded(stored).store.next_id,
        loaded(stored).queue.len() == 0 <==> forall|k: int|
            0 <= k < stored.len() ==> healed(#[trigger] stored[k]) == stored[k],
        loaded(stored).queue.len() > 0 ==> loaded(stored).queue == seq![
            loaded(stored).store.records,
        ],
{
    lemma_below_max(stored);
    lemma_some_max(stored);
    assert forall|k: int| 0 <= k < stored.len() implies (in_order(#[trigger] stored[k]) <==> healed(
        stored[k],
    ) == stored[k]) by {
        law_healing_settles(stored[k]);
        law_in_order_stays(stored[k]);
    }
    if forall|k: int| 0 <= k < stored.len() ==> healed(#[trigger] stored[k]) == stored[k] {
        assert forall|k: int| 0 <= k < stored.len() implies in_order(#[trigger] stored[k]) by {
            assert(healed(stored[k]) == stored[k]);
        }
    }
    if all_in_order(stored) {
        assert forall|k: int| 0 <= k < stored.len() implies healed(#[trigger] stored[k])
            == stored[k] by {
            assert(in_order(stored[k]));
        }
    }
}

proof fn lemma_some_max(records: Seq<Entry>)
    ensures
        records.len() > 0 ==> exists|k: int|
            0 <= k < records.len() && (#[trigger] records[k]).id == max_id(records),
    decreases records.len(),
{
    if records.len() > 0 {
        let front = records.drop_last();
        lemma_some_max(front);
        if front.len() == 0 {
            assert(max_id(front) == 0);
        }
        if front.len() == 0 || records.last().id > max_id(front) {
            assert(records[records.len() - 1].id == max_id(records));
        } else {
            let k = choose|k: int|
                0 <= k < front.len() && (#[trigger] front[k]).id == max_id(front);
            assert(records[k] == front[k]);
        }
    }
}

/// What a write leaves behind: the records that the operation came to, and one
/// more turn of them to be written, behind those that are waiting. What changes
/// nothing is not written.
pub proof fn law_after_write(before: Filed, store: Store)
    ensures
        after_write(before, store, true).store == store,
        after_write(before, store, true).queue == before.queue + seq![store.records],
        after_write(before, store, false) == (Filed { store, queue: before.queue }),
{
    assert(before.queue.push(store.records) =~= before.queue + seq![store.records]);
}

/// A directory in a file answers as one in memory with its records does, and
/// what it writes is what that comes to. What it refuses changes nothing and is
/// not written; what it carries out is written, unless no record is touched.
pub proof fn law_file_writes(
    s: &FileStorage,
    after: &FileStorage,
    fs: Seq<Pair>,
    picks: Seq<Pick>,
    kind: Option<Kind>,
    fingerprint: Option<Seq<char>>,
    team: Option<Seq<char>>,
    teams: Seq<Seq<char>>,
    roles: Seq<Seq<char>>,
)
    ensures
        forall|r: Result<Seq<Entry>, Failure>| #[trigger]
            s.may_answer(picks, kind, r) ==> r == query_outcome(s@.store.records, picks, kind),
        forall|n: usize| #[trigger] s.may_count(n) ==> n == s@.store.records.len(),
        forall|r: Result<(), Failure>| #[trigger]
            s.may_add(after, fs, fingerprint, team, r) ==> after.file() == s.file() && (if r is Ok {
                &&& after@.queue == s@.queue + seq![after@.store.records]
                &&& after@.store.records.len() == s@.store.records.len() + 1
            } else {
                after@ == s@
            }),
        forall|r: Result<UpsertOutcome, Failure>| #[trigger]
            s.may_upsert(after, fs, fingerprint, team, r) ==> after.file() == s.file() && (
            if r is Ok {
                after@.queue == s@.queue + seq![after@.store.records]
            } else {
                after@ == s@
            }),
        forall|r: Result<usize, Failure>| #[trigger]
            s.may_delete(after, picks, fingerprint, teams, roles, r) ==> after.file() == s.file()
                && (match r {
                Ok(n) => {
                    &&& n > 0 ==> after@.queue == s@.queue + seq![after@.store.records]
                    &&& n == 0 ==> after@ == s@
                },
                Err(_) => after@ == s@,
            }),
        forall|r: Result<usize, Failure>| #[trigger]
            s.may_change(after, picks, fs, fingerprint, teams, r) ==> after.file() == s.file() && (
            match r {
                Ok(n) => {
                    &&& n > 0 ==> after@.queue == s@.queue + seq![after@.store.records]
                    &&& n == 0 ==> after@ == s@
                },
                Err(_) => after@ == s@,
            }),
{
    let q = s@.queue;
    assert(q.push(after@.store.records) =~= q + seq![after@.store.records]);
    law_idle_delete(s@.store, picks, fingerprint, teams, roles);
    law_idle_change(s@.store, picks, fs, fingerprint, teams);
}

/// The records of a directory in a file are those that the operations on them
/// come to, as if they were in memory only.
pub proof fn law_file_outcomes(
    s: &FileStorage,
    after: &FileStorage,
    fs: Seq<Pair>,
    picks: Seq<Pick>,
    fingerprint: Option<Seq<char>>,
    team: Option<Seq<char>>,
    teams: Seq<Seq<char>>,
    roles: Seq<Seq<char>>,
)
    ensures
        forall|r: Result<usize, Failure>| #[trigger]
            s.may_delete(after, picks, fingerprint, teams, roles, r) ==> (match r {
                Ok(n) => delete_outcome(s@.store, picks, fingerprint, teams, roles) == Ok::<
                    (Store, nat),
                    Failure,
                >((after@.store, n as nat)),
                Err(f) => delete_outcome(s@.store, picks, fingerprint, teams, roles) == Err::<
                    (Store, nat),
                    Failure,
                >(f),
            }),
        forall|r: Result<usize, Failure>| #[trigger]
            s.may_change(after, picks, fs, fingerprint, teams, r) ==> (match r {
                Ok(n) => change_outcome(s@.store, picks, fs, fingerprint, teams) == Ok::<
                    (Store, nat),
                    Failure,
                >((after@.store, n as nat)),
                Err(f) => change_outcome(s@.store, picks, fs, fingerprint, teams) == Err::<
                    (Store, nat),
                    Failure,
                >(f),
            }),
        s.may_add(after, fs, fingerprint, team, Ok(())) ==> exists|now: Seq<char>|
            is_timestamp(now) && #[trigger] add_outcome(s@.store, fs, fingerprint, team, now)
                == Ok::<Store, Failure>(after@.store),
        forall|done: UpsertOutcome| #[trigger]
            s.may_upsert(after, fs, fingerprint, team, Ok(done)) ==> exists|now: Seq<char>|
                is_timestamp(now) && #[trigger] upsert_outcome(
                    s@.store,
                    fs,
                    fingerprint,
                    team,
                    now,
                ) == Ok::<(Store, UpsertOutcome), Failure>((after@.store, done)),
{
    if s.may_add(after, fs, fingerprint, team, Ok(())) {
        let now = choose|now: Seq<char>|
            #![trigger is_timestamp(now)]
            is_timestamp(now) && match add_outcome(s@.store, fs, fingerprint, team, now) {
                Ok(store) => after@ == after_write(s@, store, true),
                Err(e) => false,
            };
        assert(add_outcome(s@.store, fs, fingerprint, team, now) == Ok::<Store, Failure>(
            after@.store,
        ));
    }
    assert forall|done: UpsertOutcome| #[trigger]
        s.may_upsert(after, fs, fingerprint, team, Ok(done)) implies exists|now: Seq<char>|
        is_timestamp(now) && #[trigger] upsert_outcome(s@.store, fs, fingerprint, team, now)
            == Ok::<(Store, UpsertOutcome), Failure>((after@.store, done)) by {
        let now = choose|now: Seq<char>|
            #![trigger is_timestamp(now)]
            is_timestamp(now) && match upsert_outcome(s@.store, fs, fingerprint, team, now) {
                Ok((store, made)) => made == done && after@ == after_write(s@, store, true),
                Err(e) => false,
            };
        assert(upsert_outcome(s@.store, fs, fingerprint, team, now) == Ok::<
            (Store, UpsertOutcome),
            Failure,
        >((after@.store, done)));
    }
}

} // verus!
