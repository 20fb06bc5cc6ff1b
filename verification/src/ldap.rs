//! A directory that an LDAP server keeps: how queries are put to it, and what
//! its entries are as records. It is read only.

use vstd::prelude::*;

use crate::error::Failure;
use crate::error::StorageError;
use crate::field_map::FieldMap;
use crate::record::Entry;
use crate::record::Kind;
use crate::record::Record;
use crate::record::RecordType;
use crate::record::UpsertOutcome;
use crate::selection::Pick;
use crate::session::contains_text;
use crate::session::holds;
use crate::storage::Storage;
use crate::store::Pair;
use crate::text::same_text;

verus! {

/// How to reach an LDAP server, where in its tree the records are, and what it
/// sent when it was last asked.
#[derive(Clone, Debug)]
pub struct LdapStorage {
    pub url: String,
    pub bind_dn: String,
    pub bind_pw: String,
    pub base_dn: String,
    /// What the server last sent, with the filter that it was sent for.
    pub reply: Option<(String, Vec<Vec<(String, Vec<String>)>>)>,
}

/// An entry as the server sends it: its attributes, each with its values.
pub type Attributes = Seq<(Seq<char>, Seq<Seq<char>>)>;

/// The attribute that holds a field.
pub open spec fn attribute_of(field: Seq<char>) -> Seq<char> {
    if field == "name"@ || field == "hostname"@ {
        "cn"@
    } else if field == "email"@ {
        "mail"@
    } else if field == "phone"@ {
        "telephoneNumber"@
    } else if field == "ip"@ {
        "ipHostNumber"@
    } else {
        field
    }
}

/// The field that an attribute holds. A common name is read as a name, though
/// it also stands for a hostname in queries.
pub open spec fn field_of(attribute: Seq<char>) -> Seq<char> {
    if attribute == "cn"@ {
        "name"@
    } else if attribute == "mail"@ {
        "email"@
    } else if attribute == "telephoneNumber"@ {
        "phone"@
    } else if attribute == "ipHostNumber"@ {
        "ip"@
    } else {
        attribute
    }
}

/// The condition for a kind of record.
pub open spec fn kind_filter(kind: Kind) -> Seq<char> {
    match kind {
        Kind::Person => "(objectClass=inetOrgPerson)"@,
        Kind::Machine => "(objectClass=ipHost)"@,
        Kind::Other(name) => "(objectClass="@ + name + ")"@,
    }
}

/// The condition for a selection.
pub open spec fn pick_filter(pick: Pick) -> Seq<char> {
    match pick.0 {
        Some(field) => "("@ + attribute_of(field) + "="@ + pick.1 + ")"@,
        None => "(|(cn="@ + pick.1 + ")(mail="@ + pick.1 + "))"@,
    }
}

/// The conditions of a query.
pub open spec fn conditions(picks: Seq<Pick>, kind: Option<Kind>) -> Seq<Seq<char>> {
    let picked = picks.map_values(|p: Pick| pick_filter(p));
    match kind {
        Some(kind) => seq![kind_filter(kind)] + picked,
        None => picked,
    }
}

/// Texts one behind the other.
pub open spec fn chained(texts: Seq<Seq<char>>) -> Seq<char>
    decreases texts.len(),
{
    if texts.len() == 0 {
        Seq::empty()
    } else {
        chained(texts.drop_last()) + texts.last()
    }
}

/// The filter of a query: all of its conditions hold. Without conditions,
/// every entry is meant.
pub open spec fn filter_of(picks: Seq<Pick>, kind: Option<Kind>) -> Seq<char> {
    let all = conditions(picks, kind);
    if all.len() > 1 {
        "(&"@ + chained(all) + ")"@
    } else if all.len() == 1 {
        all[0]
    } else {
        "(objectClass=*)"@
    }
}

/// Values with a comma and a blank between any two.
pub open spec fn listed(values: Seq<Seq<char>>) -> Seq<char>
    decreases values.len(),
{
    if values.len() == 0 {
        Seq::empty()
    } else if values.len() == 1 {
        values[0]
    } else {
        listed(values.drop_last()) + ", "@ + values.last()
    }
}

/// The fields of an entry. An attribute without values gives none.
pub open spec fn entry_fields(attributes: Attributes) -> Map<Seq<char>, Seq<char>>
    decreases attributes.len(),
{
    if attributes.len() == 0 {
        Map::empty()
    } else {
        let fields = entry_fields(attributes.drop_last());
        let last = attributes.last();
        if last.1.len() == 0 {
            fields
        } else {
            fields.insert(field_of(last.0), listed(last.1))
        }
    }
}

/// The kind of an entry, by its object classes.
pub open spec fn entry_kind(fields: Map<Seq<char>, Seq<char>>) -> Option<Kind> {
    if !fields.contains_key("objectClass"@) {
        None
    } else if holds(fields["objectClass"@], "inetOrgPerson"@) {
        Some(Kind::Person)
    } else if holds(fields["objectClass"@], "ipHost"@) {
        Some(Kind::Machine)
    } else {
        None
    }
}

/// An entry as a record.
pub open spec fn entry_record(id: nat, attributes: Attributes) -> Entry {
    Entry {
        id,
        kind: entry_kind(entry_fields(attributes)),
        fields: entry_fields(attributes),
        multi: Map::empty(),
        fingerprint: None,
        team: None,
    }
}

/// Entries as records, which are numbered from one.
pub open spec fn entry_records(entries: Seq<Attributes>) -> Seq<Entry> {
    Seq::new(entries.len(), |i: int| entry_record((i + 1) as nat, entries[i]))
}

fn attribute_name(field: &str) -> (a: String)
    ensures
        a@ == attribute_of(field@),
{
    if same_text(field, "name") || same_text(field, "hostname") {
        "cn".to_string()
    } else if same_text(field, "email") {
        "mail".to_string()
    } else if same_text(field, "phone") {
        "telephoneNumber".to_string()
    } else if same_text(field, "ip") {
        "ipHostNumber".to_string()
    } else {
        field.to_string()
    }
}

fn field_name(attribute: &str) -> (f: String)
    ensures
        f@ == field_of(attribute@),
{
    if same_text(attribute, "cn") {
        "name".to_string()
    } else if same_text(attribute, "mail") {
        "email".to_string()
    } else if same_text(attribute, "telephoneNumber") {
        "phone".to_string()
    } else if same_text(attribute, "ipHostNumber") {
        "ip".to_string()
    } else {
        attribute.to_string()
    }
}

fn kind_condition(kind: &RecordType) -> (s: String)
    ensures
        s@ == kind_filter(kind@),
{
    match kind {
        RecordType::Person => "(objectClass=inetOrgPerson)".to_string(),
        RecordType::Machine => "(objectClass=ipHost)".to_string(),
        RecordType::Other(name) => {
            let mut s = "(objectClass=".to_string();
            s.append(name.as_str());
            s.append(")");
            s
        },
    }
}

fn pick_condition(field: &Option<String>, value: &str) -> (s: String)
    ensures
        s@ == pick_filter((field.deep_view(), value@)),
{
    match field {
        Some(field) => {
            let mut s = "(".to_string();
            s.append(attribute_name(field.as_str()).as_str());
            s.append("=");
            s.append(value);
            s.append(")");
            s
        },
        None => {
            let mut s = "(|(cn=".to_string();
            s.append(value);
            s.append(")(mail=");
            s.append(value);
            s.append("))");
            s
        },
    }
}

fn list_values(values: &Vec<String>) -> (s: String)
    ensures
        s@ == listed(values.deep_view()),
{
    let ghost all = values.deep_view();
    let mut s = String::new();
    let mut i: usize = 0;
    proof {
        assert(s@ =~= listed(all.take(0)));
    }
    while i < values.len()
        invariant
            i <= values@.len(),
            all == values.deep_view(),
            s@ == listed(all.take(i as int)),
        decreases values.len() - i,
    {
        proof {
            assert(all.take(i + 1).drop_last() =~= all.take(i as int));
            assert(all.take(i + 1).last() == values@[i as int]@);
        }
        if i > 0 {
            s.append(", ");
        }
        s.append(values[i].as_str());
        proof {
            if i == 0 {
                assert(all.take(1)[0] == values@[0]@);
                assert(s@ =~= values@[0]@);
            }
        }
        i = i + 1;
    }
    proof {
        assert(all.take(i as int) =~= all);
    }
    s
}

fn read_fields(attributes: &Vec<(String, Vec<String>)>) -> (fields: FieldMap<String>)
    ensures
        fields@ == entry_fields(attributes.deep_view()),
{
    let ghost all = attributes.deep_view();
    let mut fields: FieldMap<String> = FieldMap::new();
    let mut i: usize = 0;
    proof {
        assert(fields@ =~= entry_fields(all.take(0)));
    }
    while i < attributes.len()
        invariant
            i <= attributes@.len(),
            all == attributes.deep_view(),
            fields@ == entry_fields(all.take(i as int)),
        decreases attributes.len() - i,
    {
        proof {
            assert(all.take(i + 1).drop_last() =~= all.take(i as int));
            assert(all.take(i + 1).last() == attributes@[i as int].deep_view());
        }
        if attributes[i].1.len() > 0 {
            fields.insert(field_name(attributes[i].0.as_str()), list_values(&attributes[i].1));
        }
        i = i + 1;
    }
    proof {
        assert(all.take(i as int) =~= all);
    }
    fields
}

fn read_kind(fields: &FieldMap<String>) -> (kind: Option<RecordType>)
    ensures
        kind.deep_view() == entry_kind(fields@),
{
    match fields.get("objectClass") {
        None => None,
        Some(classes) => {
            if contains_text(classes.as_str(), "inetOrgPerson") {
                Some(RecordType::Person)
            } else if contains_text(classes.as_str(), "ipHost") {
                Some(RecordType::Machine)
            } else {
                None
            }
        },
    }
}

/// What a query is answered with: the entries that the server sent for its
/// filter, and none where it sent nothing for it.
pub open spec fn ldap_answer(
    reply: Option<(Seq<char>, Seq<Attributes>)>,
    picks: Seq<Pick>,
    kind: Option<Kind>,
) -> Seq<Entry> {
    match reply {
        Some((asked, entries)) => if asked == filter_of(picks, kind) {
            entry_records(entries)
        } else {
            Seq::empty()
        },
        None => Seq::empty(),
    }
}

impl LdapStorage {
    /// A directory at the given server, which was not asked yet.
    pub fn new(url: String, bind_dn: String, bind_pw: String, base_dn: String) -> (s: Self)
        ensures
            s.url@ == url@,
            s.bind_dn@ == bind_dn@,
            s.bind_pw@ == bind_pw@,
            s.base_dn@ == base_dn@,
            s.reply is None,
    {
        LdapStorage { url, bind_dn, bind_pw, base_dn, reply: None }
    }

    /// Takes what the server sent for a filter; `None` where it could not be
    /// asked.
    pub fn receive(&mut self, filter: String, entries: Option<Vec<Vec<(String, Vec<String>)>>>)
        ensures
            final(self).reply.deep_view() == match entries.deep_view() {
                Some(entries) => Some((filter@, entries)),
                None => None,
            },
            final(self).url == old(self).url,
            final(self).bind_dn == old(self).bind_dn,
            final(self).bind_pw == old(self).bind_pw,
            final(self).base_dn == old(self).base_dn,
    {
        self.reply = match entries {
            Some(entries) => Some((filter, entries)),
            None => None,
        };
    }

    /// The filter of a query. Values go into it as they are.
    pub fn build_filter(
        &self,
        selections: &[(Option<String>, String)],
        default_type: Option<RecordType>,
    ) -> (filter: String)
        ensures
            filter@ == filter_of(selections.deep_view(), default_type.deep_view()),
    {
        let ghost picks = selections.deep_view();
        let ghost kind = default_type.deep_view();
        let ghost all = conditions(picks, kind);
        let mut s = String::new();
        let mut n: usize = 0;
        let ghost mut done: int = 0;
        proof {
            assert(s@ =~= chained(all.take(0)));
        }
        if let Some(kind) = &default_type {
            s.append(kind_condition(kind).as_str());
            n = 1;
            proof {
                done = 1;
                assert(all.take(1).drop_last() =~= all.take(0));
                assert(all.take(1).last() == all[0]);
                assert(s@ =~= chained(all.take(1)));
            }
        }
        let ghost first = done;
        let mut i: usize = 0;
        while i < selections.len()
            invariant
                i <= selections@.len(),
                picks == selections.deep_view(),
                all == conditions(picks, kind),
                first == (if kind is Some {
                    1int
                } else {
                    0int
                }),
                s@ == chained(all.take(first + i)),
                first + i <= all.len(),
                n <= 2,
                n == (if first + i > 2 {
                    2
                } else {
                    first + i
                }),
            decreases selections.len() - i,
        {
            proof {
                assert(all.take(first + i + 1).drop_last() =~= all.take(first + i));
                assert(all[first + i] == pick_filter(picks[i as int]));
                assert(picks[i as int] == selections@[i as int].deep_view());
            }
            s.append(pick_condition(&selections[i].0, selections[i].1.as_str()).as_str());
            if n < 2 {
                n = n + 1;
            }
            i = i + 1;
        }
        proof {
            assert(all.take(first + i) =~= all);
        }
        if n > 1 {
            let mut f = "(&".to_string();
            f.append(s.as_str());
            f.append(")");
            f
        } else if n == 1 {
            proof {
                assert(all.drop_last() =~= Seq::empty());
                assert(chained(all.drop_last()) =~= Seq::empty());
                assert(s@ =~= all[0]);
            }
            s
        } else {
            "(objectClass=*)".to_string()
        }
    }

    /// The entries that the server sent, as records.
    pub fn answer(&self, entries: &Vec<Vec<(String, Vec<String>)>>) -> (records: Vec<Record>)
        ensures
            records.deep_view() == entry_records(entries.deep_view()),
    {
        let mut records: Vec<Record> = Vec::new();
        let ghost all = entries.deep_view();
        let mut i: usize = 0;
        while i < entries.len()
            invariant
                i <= entries@.len(),
                all == entries.deep_view(),
                records.deep_view() == entry_records(all).take(i as int),
            decreases entries.len() - i,
        {
            let fields = read_fields(&entries[i]);
            let record_type = read_kind(&fields);
            let record = Record {
                id: i + 1,
                record_type,
                fields,
                multi_fields: FieldMap::new(),
                owner_fingerprint: None,
                owner_team: None,
            };
            let ghost before = records.deep_view();
            let ghost seen = record@;
            proof {
                assert(all[i as int] == entries@[i as int].deep_view());
                assert(seen == entry_records(all)[i as int]);
                assert(entry_records(all).take(i + 1) =~= before.push(seen));
            }
            records.push(record);
            proof {
                assert(records.deep_view() =~= before.push(seen));
            }
            i = i + 1;
        }
        proof {
            assert(entry_records(all).take(i as int) =~= entry_records(all));
        }
        records
    }
}

/// A directory at an LDAP server refuses to be written, and its records are
/// not counted.
impl Storage for LdapStorage {
    open spec fn has_room(&self) -> bool {
        true
    }

    open spec fn may_count(&self, n: usize) -> bool {
        n == 0
    }

    open spec fn may_answer(
        &self,
        picks: Seq<Pick>,
        default_kind: Option<Kind>,
        r: Result<Seq<Entry>, Failure>,
    ) -> bool {
        r == Ok::<Seq<Entry>, Failure>(ldap_answer(self.reply.deep_view(), picks, default_kind))
    }

    open spec fn may_add(
        &self,
        after: &Self,
        fs: Seq<Pair>,
        fingerprint: Option<Seq<char>>,
        team: Option<Seq<char>>,
        r: Result<(), Failure>,
    ) -> bool {
        r == Err::<(), Failure>(Failure::ReadOnly) && *after == *self
    }

    open spec fn may_upsert(
        &self,
        after: &Self,
        fs: Seq<Pair>,
        fingerprint: Option<Seq<char>>,
        team: Option<Seq<char>>,
        r: Result<UpsertOutcome, Failure>,
    ) -> bool {
        r == Err::<UpsertOutcome, Failure>(Failure::ReadOnly) && *after == *self
    }

    open spec fn may_delete(
        &self,
        after: &Self,
        picks: Seq<Pick>,
        fingerprint: Option<Seq<char>>,
        teams: Seq<Seq<char>>,
        roles: Seq<Seq<char>>,
        r: Result<usize, Failure>,
    ) -> bool {
        r == Err::<usize, Failure>(Failure::ReadOnly) && *after == *self
    }

    open spec fn may_change(
        &self,
        after: &Self,
        picks: Seq<Pick>,
        mods: Seq<Pair>,
        fingerprint: Option<Seq<char>>,
        teams: Seq<Seq<char>>,
        r: Result<usize, Failure>,
    ) -> bool {
        r == Err::<usize, Failure>(Failure::ReadOnly) && *after == *self
    }

    fn record_count(&self) -> (n: usize) {
        0
    }

    fn add_record(
        &mut self,
        fields: Vec<(String, String)>,
        fingerprint: Option<String>,
        team: Option<String>,
    ) -> (r: Result<(), StorageError>) {
        Err(StorageError::ReadOnly)
    }

    fn query(
        &self,
        selections: &[(Option<String>, String)],
        default_type: Option<RecordType>,
    ) -> (r: Result<Vec<Record>, StorageError>) {
        let filter = self.build_filter(selections, default_type);
        match &self.reply {
            Some((asked, entries)) => {
                if same_text(asked.as_str(), filter.as_str()) {
                    return Ok(self.answer(entries));
                }
            },
            None => {},
        }
        let none: Vec<Record> = Vec::new();
        proof {
            assert(none.deep_view() =~= Seq::empty());
        }
        Ok(none)
    }

    fn upsert_record(
        &mut self,
        fields: Vec<(String, String)>,
        fingerprint: Option<String>,
        team: Option<String>,
    ) -> (r: Result<UpsertOutcome, StorageError>) {
        Err(StorageError::ReadOnly)
    }

    fn delete_record(
        &mut self,
        selections: &[(Option<String>, String)],
        fingerprint: Option<String>,
        teams: &[String],
        roles: &[String],
    ) -> (r: Result<usize, StorageError>) {
        Err(StorageError::ReadOnly)
    }

    fn change_record(
        &mut self,
        selections: &[(Option<String>, String)],
        modifications: &[(String, String)],
        fingerprint: Option<String>,
        teams: &[String],
    ) -> (r: Result<usize, StorageError>) {
        Err(StorageError::ReadOnly)
    }
}

// ---------------------------------------------------------------------------
// What holds of entries and filters
// ---------------------------------------------------------------------------

proof fn lemma_attribute_names()
    ensures
        "cn"@.len() == 2,
        "mail"@.len() == 4,
        "telephoneNumber"@.len() == 15,
        "ipHostNumber"@.len() == 12,
        "name"@.len() == 4,
        "hostname"@.len() == 8,
        "email"@.len() == 5,
        "phone"@.len() == 5,
        "ip"@.len() == 2,
        "objectClass"@.len() == 11,
        "cn"@ != "ip"@,
        "mail"@ != "name"@,
        "email"@ != "phone"@,
{
    reveal_strlit("cn");
    reveal_strlit("mail");
    reveal_strlit("telephoneNumber");
    reveal_strlit("ipHostNumber");
    reveal_strlit("name");
    reveal_strlit("hostname");
    reveal_strlit("email");
    reveal_strlit("phone");
    reveal_strlit("ip");
    reveal_strlit("objectClass");
    assert("cn"@[0] == 'c' && "ip"@[0] == 'i');
    assert("mail"@[0] == 'm' && "name"@[0] == 'n');
    assert("email"@[0] == 'e' && "phone"@[0] == 'p');
}

/// A field that the server keeps under another name is read back under its own:
/// the attribute of a field gives the field again. A host name is kept where
/// names are, and comes back as a name.
pub proof fn law_field_reads_back(field: Seq<char>)
    ensures
        field == "name"@ || field == "email"@ || field == "phone"@ || field == "ip"@ ==> {
            &&& field_of(attribute_of(field)) == field
            &&& attribute_of(field) != field
        },
        field_of(attribute_of("hostname"@)) == "name"@,
        field != "hostname"@ && field != "cn"@ && field != "mail"@ && field != "telephoneNumber"@
            && field != "ipHostNumber"@ ==> field_of(attribute_of(field)) == field,
{
    lemma_attribute_names();
}

/// An attribute that the server keeps is asked for under its own name: the
/// field that it is read as leads back to it.
pub proof fn law_attribute_reads_back(attribute: Seq<char>)
    requires
        attribute != "name"@,
        attribute != "hostname"@,
        attribute != "email"@,
        attribute != "phone"@,
        attribute != "ip"@,
    ensures
        attribute_of(field_of(attribute)) == attribute,
{
    lemma_attribute_names();
}

/// Under which name each field is kept.
pub proof fn law_attribute_names(field: Seq<char>)
    ensures
        attribute_of(field) == "cn"@ <==> field == "name"@ || field == "hostname"@ || field == "cn"@,
        attribute_of(field) == "mail"@ <==> field == "email"@ || field == "mail"@,
        attribute_of(field) == "telephoneNumber"@ <==> field == "phone"@ || field
            == "telephoneNumber"@,
        attribute_of(field) == "ipHostNumber"@ <==> field == "ip"@ || field == "ipHostNumber"@,
{
    lemma_attribute_names();
}

/// An entry with one attribute, which has values, is a record with the one
/// field that the attribute stands for; without values it has no field.
pub proof fn law_entry_of_one(id: nat, field: Seq<char>, values: Seq<Seq<char>>)
    requires
        field == "name"@ || field == "email"@ || field == "phone"@ || field == "ip"@,
    ensures
        ({
            let e = entry_record(id, seq![(attribute_of(field), values)]);
            &&& e.id == id && e.fingerprint is None && e.team is None
            &&& forall|k: Seq<char>| !#[trigger] e.multi.contains_key(k)
            &&& values.len() == 0 ==> forall|k: Seq<char>| !#[trigger] e.fields.contains_key(k)
            &&& values.len() > 0 ==> {
                &&& forall|k: Seq<char>| #[trigger] e.fields.contains_key(k) <==> k == field
                &&& e.fields[field] == listed(values)
            }
        }),
{
    law_field_reads_back(field);
    let one = seq![(attribute_of(field), values)];
    assert(one.drop_last() =~= Seq::<(Seq<char>, Seq<Seq<char>>)>::empty());
    assert(entry_fields(one.drop_last()) == Map::<Seq<char>, Seq<char>>::empty());
}

/// What is asked for by one selection: by a field under the name that the
/// server keeps it under, without a field by name and by mail. A kind is asked
/// for by its class.
pub proof fn law_one_condition(field: Seq<char>, value: Seq<char>, name: Seq<char>)
    ensures
        filter_of(Seq::empty(), None) == "(objectClass=*)"@,
        filter_of(seq![(Some(field), value)], None) == "("@ + attribute_of(field) + "="@ + value
            + ")"@,
        filter_of(seq![(None::<Seq<char>>, value)], None) == "(|(cn="@ + value + ")(mail="@ + value
            + "))"@,
        filter_of(Seq::empty(), Some(Kind::Person)) == "(objectClass=inetOrgPerson)"@,
        filter_of(Seq::empty(), Some(Kind::Machine)) == "(objectClass=ipHost)"@,
        filter_of(Seq::empty(), Some(Kind::Other(name))) == "(objectClass="@ + name + ")"@,
{
    let none = Seq::<Pick>::empty();
    assert(conditions(none, None).len() == 0);
    assert(conditions(seq![(Some(field), value)], None)[0] == pick_filter((Some(field), value)));
    assert(conditions(seq![(None::<Seq<char>>, value)], None)[0] == pick_filter(
        (None::<Seq<char>>, value),
    ));
    assert(conditions(none, Some(Kind::Person)) =~= seq![kind_filter(Kind::Person)]);
    assert(conditions(none, Some(Kind::Machine)) =~= seq![kind_filter(Kind::Machine)]);
    assert(conditions(none, Some(Kind::Other(name))) =~= seq![kind_filter(Kind::Other(name))]);
}

/// Several conditions have to hold together: they stand one behind the other
/// inside one conjunction, that of the kind first, then those of the selections
/// in their order.
pub proof fn law_all_conditions(picks: Seq<Pick>, last: Pick, kind: Option<Kind>)
    requires
        picks.len() > 0 || kind is Some,
    ensures
        filter_of(picks.push(last), kind) == "(&"@ + inner(picks, kind) + filter_of(
            seq![last],
            None,
        ) + ")"@,
        picks.len() + (if kind is Some {
            1int
        } else {
            0
        }) == 1 ==> inner(picks, kind) == filter_of(picks, kind),
        picks.len() + (if kind is Some {
            1int
        } else {
            0
        }) > 1 ==> filter_of(picks, kind) == "(&"@ + inner(picks, kind) + ")"@,
{
    let all = conditions(picks, kind);
    let more = conditions(picks.push(last), kind);
    let one = conditions(seq![last], None);
    assert(one =~= seq![pick_filter(last)]);
    assert(picks.push(last).map_values(|p: Pick| pick_filter(p)) =~= picks.map_values(
        |p: Pick| pick_filter(p),
    ).push(pick_filter(last)));
    assert(more =~= all.push(pick_filter(last)));
    assert(more.drop_last() =~= all);
    assert("(&"@ + (chained(all) + pick_filter(last)) + ")"@ =~= "(&"@ + chained(all)
        + pick_filter(last) + ")"@);
    if all.len() == 1 {
        assert(all.drop_last() =~= Seq::<Seq<char>>::empty());
        assert(chained(all.drop_last()) == Seq::<char>::empty());
        assert(chained(all) =~= all[0]);
    }
}

/// The conditions of a filter without what holds them together.
pub open spec fn inner(picks: Seq<Pick>, kind: Option<Kind>) -> Seq<char> {
    chained(conditions(picks, kind))
}

/// Several values of an attribute make up one value, with a comma and a blank
/// between each two.
pub proof fn law_values_listed(values: Seq<Seq<char>>, value: Seq<char>)
    ensures
        listed(seq![value]) == value,
        values.len() > 0 ==> listed(values.push(value)) == listed(values) + ", "@ + value,
{
    assert(values.push(value).drop_last() =~= values);
}

/// The fields of an entry: each attribute that has values gives one, under the
/// name of its field; one without values gives none. Of two attributes of the
/// same field the later prevails.
pub proof fn law_entry_fields(
    attributes: Attributes,
    attribute: Seq<char>,
    values: Seq<Seq<char>>,
    k: Seq<char>,
)
    ensures
        entry_fields(Seq::empty()) == Map::<Seq<char>, Seq<char>>::empty(),
        values.len() == 0 ==> entry_fields(attributes.push((attribute, values))) == entry_fields(
            attributes,
        ),
        values.len() > 0 ==> {
            let fields = entry_fields(attributes.push((attribute, values)));
            &&& fields.contains_key(field_of(attribute)) && fields[field_of(attribute)] == listed(
                values,
            )
            &&& k != field_of(attribute) ==> fields.contains_key(k) == entry_fields(
                attributes,
            ).contains_key(k) && fields[k] == entry_fields(attributes)[k]
        },
{
    assert(attributes.push((attribute, values)).drop_last() =~= attributes);
}

/// What an entry is: a person where its classes name `inetOrgPerson`, or else a
/// machine where they name `ipHost`, and otherwise of no kind.
pub proof fn law_entry_kind(
    fields: Map<Seq<char>, Seq<char>>,
    before: Seq<char>,
    after: Seq<char>,
)
    ensures
        !fields.contains_key("objectClass"@) ==> entry_kind(fields) is None,
        entry_kind(fields.insert("objectClass"@, before + "inetOrgPerson"@ + after)) == Some(
            Kind::Person,
        ),
        !holds(before + "ipHost"@ + after, "inetOrgPerson"@) ==> entry_kind(
            fields.insert("objectClass"@, before + "ipHost"@ + after),
        ) == Some(Kind::Machine),
        fields.contains_key("objectClass"@) && !holds(fields["objectClass"@], "inetOrgPerson"@)
            && !holds(fields["objectClass"@], "ipHost"@) ==> entry_kind(fields) is None,
{
    crate::session::law_text_within(before, "inetOrgPerson"@, after, Seq::empty());
    crate::session::law_text_within(before, "ipHost"@, after, Seq::empty());
}

/// The records that the entries of an answer are: one for each, in their order,
/// numbered from one, of the kind of the entry, and owned by nobody.
pub proof fn law_entries_as_records(entries: Seq<Attributes>, i: int)
    requires
        0 <= i < entries.len(),
    ensures
        entry_records(entries).len() == entries.len(),
        ({
            let e = entry_records(entries)[i];
            &&& e.id == i + 1
            &&& e.fields == entry_fields(entries[i])
            &&& e.kind == entry_kind(entry_fields(entries[i]))
            &&& forall|k: Seq<char>| !#[trigger] e.multi.contains_key(k)
            &&& e.fingerprint is None && e.team is None
        }),
{
}

/// What the server sent for a filter answers the queries that put that filter,
/// and no others; before it sent anything, nothing is found.
pub proof fn law_answer_to_its_filter(
    asked: Seq<char>,
    entries: Seq<Attributes>,
    picks: Seq<Pick>,
    kind: Option<Kind>,
)
    ensures
        ldap_answer(None, picks, kind).len() == 0,
        asked == filter_of(picks, kind) ==> ldap_answer(Some((asked, entries)), picks, kind)
            == entry_records(entries),
        asked != filter_of(picks, kind) ==> ldap_answer(Some((asked, entries)), picks, kind).len()
            == 0,
{
}

/// The directory of an LDAP server cannot be written to: every attempt is
/// refused for that reason and changes nothing, and it counts no records of its
/// own.
pub proof fn law_read_only(
    s: &LdapStorage,
    after: &LdapStorage,
    fs: Seq<Pair>,
    picks: Seq<Pick>,
    fingerprint: Option<Seq<char>>,
    team: Option<Seq<char>>,
    teams: Seq<Seq<char>>,
    roles: Seq<Seq<char>>,
)
    ensures
        forall|r: Result<(), Failure>| #[trigger]
            s.may_add(after, fs, fingerprint, team, r) ==> r == Err::<(), Failure>(
                Failure::ReadOnly,
            ) && *after == *s,
        forall|r: Result<UpsertOutcome, Failure>| #[trigger]
            s.may_upsert(after, fs, fingerprint, team, r) ==> r == Err::<UpsertOutcome, Failure>(
                Failure::ReadOnly,
            ) && *after == *s,
        forall|r: Result<usize, Failure>| #[trigger]
            s.may_delete(after, picks, fingerprint, teams, roles, r) ==> r == Err::<usize, Failure>(
                Failure::ReadOnly,
            ) && *after == *s,
        forall|r: Result<usize, Failure>| #[trigger]
            s.may_change(after, picks, fs, fingerprint, teams, r) ==> r == Err::<usize, Failure>(
                Failure::ReadOnly,
            ) && *after == *s,
        forall|n: usize| #[trigger] s.may_count(n) ==> n == 0,
{
}

} // verus!
