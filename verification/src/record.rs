//! The records of the directory.

use vstd::prelude::*;

use crate::field_map::FieldMap;
use crate::text::ascii_lower;
use crate::text::is_ascii_text;
use crate::text::lowercase;
use crate::text::same_text;
use crate::text::to_lowercase;

verus! {

/// What a record describes.
#[derive(Debug, PartialEq, Eq)]
pub enum RecordType {
    Person,
    Machine,
    Other(String),
}

/// A `RecordType` as a value of the specification.
pub enum Kind {
    Person,
    Machine,
    Other(Seq<char>),
}

impl View for RecordType {
    type V = Kind;

    open spec fn view(&self) -> Kind {
        match self {
            RecordType::Person => Kind::Person,
            RecordType::Machine => Kind::Machine,
            RecordType::Other(s) => Kind::Other(s@),
        }
    }
}

impl DeepView for RecordType {
    type V = Kind;

    open spec fn deep_view(&self) -> Kind {
        self@
    }
}

/// The kind that a type name stands for: `person` and `machine` in any case,
/// and any other name as it is written.
pub open spec fn kind_of(name: Seq<char>) -> Kind {
    kind_called(lowercase(name), name)
}

/// The kind that a type name stands for, given its lower-case form.
pub open spec fn kind_called(low: Seq<char>, name: Seq<char>) -> Kind {
    if low == "person"@ {
        Kind::Person
    } else if low == "machine"@ {
        Kind::Machine
    } else {
        Kind::Other(name)
    }
}

/// The name of a kind.
pub open spec fn kind_name(kind: Kind) -> Seq<char> {
    match kind {
        Kind::Person => "person"@,
        Kind::Machine => "machine"@,
        Kind::Other(name) => name,
    }
}

impl vstd::std_specs::convert::FromSpecImpl<&str> for RecordType {
    open spec fn obeys_from_spec() -> bool {
        false
    }

    open spec fn from_spec(s: &str) -> Self {
        arbitrary()
    }
}

impl From<&str> for RecordType {
    fn from(s: &str) -> (r: Self)
        ensures
            r@ == kind_of(s@),
            is_ascii_text(s@) ==> r@ == kind_called(ascii_lower(s@), s@),
            is_ascii_text(s@) ==> (r@ == Kind::Person <==> ascii_lower(s@) == "person"@),
            is_ascii_text(s@) ==> (r@ == Kind::Machine <==> ascii_lower(s@) == "machine"@),
            r@ matches Kind::Other(name) ==> name == s@,
    {
        proof {
            lemma_kind_names_differ();
        }
        let low = to_lowercase(s);
        if same_text(low.as_str(), "person") {
            RecordType::Person
        } else if same_text(low.as_str(), "machine") {
            RecordType::Machine
        } else {
            RecordType::Other(s.to_string())
        }
    }
}

impl RecordType {
    /// The name of the type.
    pub fn as_str(&self) -> (s: &str)
        ensures
            s@ == kind_name(self@),
    {
        match self {
            RecordType::Person => "person",
            RecordType::Machine => "machine",
            RecordType::Other(s) => s.as_str(),
        }
    }

    /// Whether two types are the same.
    pub fn same_as(&self, other: &RecordType) -> (same: bool)
        ensures
            same == (self@ == other@),
    {
        match (self, other) {
            (RecordType::Person, RecordType::Person) => true,
            (RecordType::Machine, RecordType::Machine) => true,
            (RecordType::Other(a), RecordType::Other(b)) => same_text(a.as_str(), b.as_str()),
            _ => false,
        }
    }
}

impl Clone for RecordType {
    fn clone(&self) -> (r: Self)
        ensures
            r@ == self@,
    {
        match self {
            RecordType::Person => RecordType::Person,
            RecordType::Machine => RecordType::Machine,
            RecordType::Other(s) => RecordType::Other(s.clone()),
        }
    }
}

/// A record: a person, a machine, or something else, with its fields and its
/// owner.
#[derive(Debug)]
pub struct Record {
    pub id: usize,
    pub record_type: Option<RecordType>,
    pub fields: FieldMap<String>,
    pub multi_fields: FieldMap<Vec<String>>,
    pub owner_fingerprint: Option<String>,
    pub owner_team: Option<String>,
}

/// A `Record` as a value of the specification.
pub struct Entry {
    pub id: nat,
    pub kind: Option<Kind>,
    pub fields: Map<Seq<char>, Seq<char>>,
    pub multi: Map<Seq<char>, Seq<Seq<char>>>,
    pub fingerprint: Option<Seq<char>>,
    pub team: Option<Seq<char>>,
}

impl View for Record {
    type V = Entry;

    open spec fn view(&self) -> Entry {
        Entry {
            id: self.id as nat,
            kind: self.record_type.deep_view(),
            fields: self.fields@,
            multi: self.multi_fields@,
            fingerprint: self.owner_fingerprint.deep_view(),
            team: self.owner_team.deep_view(),
        }
    }
}

impl DeepView for Record {
    type V = Entry;

    open spec fn deep_view(&self) -> Entry {
        self@
    }
}

impl Clone for Record {
    fn clone(&self) -> (r: Self)
        ensures
            r@ == self@,
    {
        let record_type = match &self.record_type {
            Some(t) => Some(t.clone()),
            None => None,
        };
        Record {
            id: self.id,
            record_type,
            fields: self.fields.clone(),
            multi_fields: self.multi_fields.clone(),
            owner_fingerprint: clone_text(&self.owner_fingerprint),
            owner_team: clone_text(&self.owner_team),
        }
    }
}

impl Default for Record {
    fn default() -> (r: Self)
        ensures
            r@ == empty_entry(),
    {
        Record {
            id: 0,
            record_type: None,
            fields: FieldMap::new(),
            multi_fields: FieldMap::new(),
            owner_fingerprint: None,
            owner_team: None,
        }
    }
}

/// A record without a type, fields or an owner.
pub open spec fn empty_entry() -> Entry {
    Entry {
        id: 0,
        kind: None,
        fields: Map::empty(),
        multi: Map::empty(),
        fingerprint: None,
        team: None,
    }
}

/// A copy of an optional string.
pub fn clone_text(s: &Option<String>) -> (r: Option<String>)
    ensures
        r.deep_view() == s.deep_view(),
{
    match s {
        Some(t) => Some(t.clone()),
        None => None,
    }
}

/// Whether two optional strings are equal.
pub fn same_optional_text(a: &Option<String>, b: &Option<String>) -> (same: bool)
    ensures
        same == (a.deep_view() == b.deep_view()),
{
    match (a, b) {
        (Some(x), Some(y)) => same_text(x.as_str(), y.as_str()),
        (None, None) => true,
        _ => false,
    }
}

/// What an upsert did.
#[derive(Debug, Clone, Copy, PartialEq, Eq, Structural)]
pub enum UpsertOutcome {
    Created,
    Updated,
}

/// The fields that hold several values: the addresses of a machine.
pub open spec fn is_address(name: Seq<char>) -> bool {
    name == "ip_addr"@ || name == "mac_addr"@
}

/// Whether a field holds several values.
pub fn is_address_field(name: &str) -> (b: bool)
    ensures
        b == is_address(name@),
{
    same_text(name, "ip_addr") || same_text(name, "mac_addr")
}

/// A list with a value added at its end, unless it is in the list already.
pub open spec fn add_once(list: Seq<Seq<char>>, value: Seq<char>) -> Seq<Seq<char>> {
    if list.contains(value) {
        list
    } else {
        list.push(value)
    }
}

/// The values of a field that holds several; none where there is no such field.
pub open spec fn values_of(multi: Map<Seq<char>, Seq<Seq<char>>>, name: Seq<char>) -> Seq<
    Seq<char>,
> {
    if multi.contains_key(name) {
        multi[name]
    } else {
        Seq::empty()
    }
}

/// A record with one field set: an address joins the addresses there are, any
/// other value takes the place of the one there was.
pub open spec fn with_field(e: Entry, name: Seq<char>, value: Seq<char>) -> Entry {
    if is_address(name) {
        Entry { multi: e.multi.insert(name, add_once(values_of(e.multi, name), value)), ..e }
    } else {
        Entry { fields: e.fields.insert(name, value), ..e }
    }
}

/// A record with several fields set, one after the other.
pub open spec fn with_fields(e: Entry, fs: Seq<(Seq<char>, Seq<char>)>) -> Entry
    decreases fs.len(),
{
    if fs.len() == 0 {
        e
    } else {
        with_field(with_fields(e, fs.drop_last()), fs.last().0, fs.last().1)
    }
}

/// Whether a list of strings holds one.
pub fn text_listed(list: &[String], s: &str) -> (b: bool)
    ensures
        b == list.deep_view().contains(s@),
{
    let mut i: usize = 0;
    while i < list.len()
        invariant
            i <= list@.len(),
            forall|j: int| 0 <= j < i ==> (#[trigger] list@[j])@ != s@,
        decreases list.len() - i,
    {
        if same_text(list[i].as_str(), s) {
            proof {
                assert(list.deep_view()[i as int] == s@);
            }
            return true;
        }
        i = i + 1;
    }
    proof {
        assert forall|j: int| 0 <= j < list.deep_view().len() implies list.deep_view()[j]
            != s@ by {
            assert(list@[j]@ != s@);
        }
    }
    false
}

/// Adds a value to a list, once.
pub fn list_once(list: &mut Vec<String>, value: &str)
    ensures
        final(list).deep_view() == add_once(old(list).deep_view(), value@),
{
    let ghost was = list.deep_view();
    if !text_listed(list.as_slice(), value) {
        list.push(value.to_string());
        proof {
            assert(list.deep_view() =~= was.push(value@));
        }
    }
}

/// Adds a value to the addresses of a name, once.
pub fn push_once(multi: &mut FieldMap<Vec<String>>, name: &str, value: &str)
    ensures
        final(multi)@ == old(multi)@.insert(
            name@,
            add_once(values_of(old(multi)@, name@), value@),
        ),
{
    let ghost before = multi@;
    let mut list: Vec<String> = match multi.remove(name) {
        Some(l) => l,
        None => Vec::new(),
    };
    proof {
        assert(list.deep_view() =~= values_of(before, name@));
    }
    list_once(&mut list, value);
    let ghost now = list.deep_view();
    multi.insert(name.to_string(), list);
    proof {
        assert(before.remove(name@).insert(name@, now) =~= before.insert(name@, now));
    }
}

impl Record {
    /// Sets one field.
    pub fn set_field(&mut self, name: &str, value: &str)
        ensures
            final(self)@ == with_field(old(self)@, name@, value@),
    {
        if is_address_field(name) {
            push_once(&mut self.multi_fields, name, value);
        } else {
            self.fields.insert(name.to_string(), value.to_string());
        }
    }
}

// ---------------------------------------------------------------------------
// What holds of kinds and fields
// ---------------------------------------------------------------------------

proof fn lemma_kind_names_differ()
    ensures
        "person"@ != "machine"@,
{
    reveal_strlit("person");
    reveal_strlit("machine");
    assert("person"@.len() == 6);
    assert("machine"@.len() == 7);
}

/// The name of a kind is read without regard to case: a name whose lower-case
/// form is `person` or `machine` stands for that kind, and every other name is
/// kept as it is written.
pub proof fn law_kind_ignores_case(name: Seq<char>)
    ensures
        kind_of(name) == Kind::Person <==> lowercase(name) == "person"@,
        kind_of(name) == Kind::Machine <==> lowercase(name) == "machine"@,
        lowercase(name) != "person"@ && lowercase(name) != "machine"@ ==> kind_of(name)
            == Kind::Other(name),
{
    lemma_kind_names_differ();
}

/// Of a name whose lower-case form is that of its ASCII letters: however its
/// letters are written, `person` stands for people and `machine` for machines,
/// and every other name is kept as it is written.
pub proof fn law_kind_of_ascii_name(name: Seq<char>)
    requires
        lowercase(name) == ascii_lower(name),
    ensures
        ascii_lower(name) == "person"@ ==> kind_of(name) == Kind::Person,
        ascii_lower(name) == "machine"@ ==> kind_of(name) == Kind::Machine,
        ascii_lower(name) != "person"@ && ascii_lower(name) != "machine"@ ==> kind_of(name)
            == Kind::Other(name),
{
    lemma_kind_names_differ();
}

/// Two names that differ in case alone are of one kind, unless they are kept as
/// they are written.
pub proof fn law_kind_by_lower_case(a: Seq<char>, b: Seq<char>)
    requires
        lowercase(a) == lowercase(b),
    ensures
        kind_of(a) == kind_of(b) || kind_of(a) == Kind::Other(a) && kind_of(b) == Kind::Other(b),
{
}

/// The name of a kind stands for that kind.
pub proof fn law_kind_name_reads_back(name: Seq<char>)
    requires
        lowercase("person"@) == "person"@,
        lowercase("machine"@) == "machine"@,
    ensures
        kind_of(kind_name(kind_of(name))) == kind_of(name),
        kind_of(name) is Other ==> kind_name(kind_of(name)) == name,
        kind_of(name) is Person ==> kind_name(kind_of(name)) == "person"@,
        kind_of(name) is Machine ==> kind_name(kind_of(name)) == "machine"@,
{
    lemma_kind_names_differ();
}

/// Setting a field: an address joins the list of its name, once and behind
/// those that are there; any other value takes the place of the one before it.
/// Nothing else of the record changes.
pub proof fn law_set_field(e: Entry, name: Seq<char>, value: Seq<char>, other: Seq<char>)
    requires
        other != name,
    ensures
        ({
            let r = with_field(e, name, value);
            &&& r.id == e.id && r.kind == e.kind && r.fingerprint == e.fingerprint && r.team
                == e.team
            &&& r.fields.contains_key(other) == e.fields.contains_key(other) && r.fields[other]
                == e.fields[other]
            &&& r.multi.contains_key(other) == e.multi.contains_key(other) && r.multi[other]
                == e.multi[other]
            &&& if name == "ip_addr"@ || name == "mac_addr"@ {
                let was = if e.multi.contains_key(name) {
                    e.multi[name]
                } else {
                    Seq::empty()
                };
                &&& r.fields == e.fields
                &&& r.multi.contains_key(name) && r.multi[name].contains(value)
                &&& was.contains(value) ==> r.multi[name] == was
                &&& !was.contains(value) ==> r.multi[name] == was.push(value)
            } else {
                &&& r.multi == e.multi
                &&& r.fields.contains_key(name) && r.fields[name] == value
            }
        }),
{
    let r = with_field(e, name, value);
    if name == "ip_addr"@ || name == "mac_addr"@ {
        let was = values_of(e.multi, name);
        if !was.contains(value) {
            assert(was.push(value)[was.len() as int] == value);
        }
    }
}

/// Setting fields one list after the other is setting the one list that they
/// make up, and the last value that is given for a name prevails.
pub proof fn law_fields_in_order(
    e: Entry,
    first: Seq<(Seq<char>, Seq<char>)>,
    second: Seq<(Seq<char>, Seq<char>)>,
)
    ensures
        with_fields(e, first + second) == with_fields(with_fields(e, first), second),
        with_fields(e, Seq::empty()) == e,
        forall|name: Seq<char>, value: Seq<char>|
            with_fields(e, seq![(name, value)]) == #[trigger] with_field(e, name, value),
    decreases second.len(),
{
    if second.len() == 0 {
        assert(first + second =~= first);
    } else {
        law_fields_in_order(e, first, second.drop_last());
        assert((first + second).drop_last() =~= first + second.drop_last());
    }
    assert forall|name: Seq<char>, value: Seq<char>|
        with_fields(e, seq![(name, value)]) == #[trigger] with_field(e, name, value) by {
        let one = seq![(name, value)];
        assert(one.drop_last() =~= Seq::<(Seq<char>, Seq<char>)>::empty());
        assert(with_fields(e, one.drop_last()) == e);
    }
}

} // verus!
