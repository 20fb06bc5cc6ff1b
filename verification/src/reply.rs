//! The answers to queries, as they go over the wire.

use vstd::prelude::*;

use crate::error::Failure;
use crate::error::StorageError;
use crate::names::ascending;
use crate::names::before;
use crate::names::law_listing;
use crate::names::law_listing_unique;
use crate::names::law_sorted;
use crate::names::lemma_push_set;
use crate::names::lemma_sorted;
use crate::names::listing;
use crate::names::sort_names;
use crate::names::sorted;
use crate::numbers::decimal;
use crate::numbers::decimal_text;
use crate::record::Entry;
use crate::record::Record;
use crate::record::add_once;
use crate::record::list_once;
use crate::record::text_listed;
use crate::storage::found;
use crate::text::chars_of;
use crate::text::is_ascii_text;
use crate::text::same_text;

verus! {

// ---------------------------------------------------------------------------
// Lists of names
// ---------------------------------------------------------------------------

proof fn lemma_add_once(names: Seq<Seq<char>>, name: Seq<char>)
    ensures
        add_once(names, name).to_set() == names.to_set().insert(name),
        names.no_duplicates() ==> add_once(names, name).no_duplicates(),
{
    if names.contains(name) {
        assert(names.to_set().insert(name) =~= names.to_set());
    } else {
        lemma_push_set(names, name);
    }
}

/// Adds the names that are not in the list yet.
fn merge_names(list: &mut Vec<String>, more: &[String])
    requires
        old(list).deep_view().no_duplicates(),
    ensures
        final(list).deep_view().no_duplicates(),
        final(list).deep_view().to_set() == old(list).deep_view().to_set().union(
            more.deep_view().to_set(),
        ),
{
    let ghost start = list.deep_view().to_set();
    let ghost all = more.deep_view();
    let mut i: usize = 0;
    proof {
        assert(all.take(0).to_set() =~= Set::empty());
        assert(start.union(all.take(0).to_set()) =~= start);
    }
    while i < more.len()
        invariant
            i <= more@.len(),
            all == more.deep_view(),
            list.deep_view().no_duplicates(),
            list.deep_view().to_set() == start.union(all.take(i as int).to_set()),
        decreases more.len() - i,
    {
        proof {
            lemma_add_once(list.deep_view(), more@[i as int]@);
            lemma_push_set(all.take(i as int), all[i as int]);
            assert(all.take(i + 1) =~= all.take(i as int).push(all[i as int]));
            assert(start.union(all.take(i as int).to_set()).insert(all[i as int]) =~= start.union(
                all.take(i + 1).to_set(),
            ));
        }
        list_once(list, more[i].as_str());
        i = i + 1;
    }
    proof {
        assert(all.take(i as int) =~= all);
    }
}

/// The names of a record's fields.
pub open spec fn field_names(e: Entry) -> Set<Seq<char>> {
    e.fields.dom().union(e.multi.dom())
}

/// Adds the names of a record's fields to a list.
fn merge_field_names(list: &mut Vec<String>, record: &Record)
    requires
        old(list).deep_view().no_duplicates(),
    ensures
        final(list).deep_view().no_duplicates(),
        final(list).deep_view().to_set() == old(list).deep_view().to_set().union(
            field_names(record@),
        ),
{
    let ghost start = list.deep_view().to_set();
    let plain = record.fields.names();
    merge_names(list, plain.as_slice());
    let several = record.multi_fields.names();
    merge_names(list, several.as_slice());
    proof {
        assert(start.union(record@.fields.dom()).union(record@.multi.dom()) =~= start.union(
            field_names(record@),
        ));
    }
}

// ---------------------------------------------------------------------------
// Records
// ---------------------------------------------------------------------------

/// The number of bytes that UTF-8 needs for a character.
pub open spec fn utf8_width(c: char) -> nat {
    if (c as u32) < 0x80 {
        1
    } else if (c as u32) < 0x800 {
        2
    } else if (c as u32) < 0x1_0000 {
        3
    } else {
        4
    }
}

/// As many blanks as a name has bytes in UTF-8.
pub open spec fn padding(name: Seq<char>) -> Seq<char>
    decreases name.len(),
{
    if name.len() == 0 {
        Seq::empty()
    } else {
        padding(name.drop_last()) + Seq::new(utf8_width(name.last()), |i: int| ' ')
    }
}

/// A line with one value of a record.
pub open spec fn data_line(index: nat, name: Seq<char>, value: Seq<char>) -> Seq<char> {
    "-200:"@ + decimal(index) + ":"@ + name + ": "@ + value + "\n"@
}

/// The lines with the values of a field that holds several: the name stands in
/// the first line, blanks in the others.
pub open spec fn value_lines(index: nat, name: Seq<char>, values: Seq<Seq<char>>) -> Seq<char>
    decreases values.len(),
{
    if values.len() == 0 {
        Seq::empty()
    } else {
        value_lines(index, name, values.drop_last()) + data_line(
            index,
            if values.len() == 1 {
                name
            } else {
                padding(name)
            },
            values.last(),
        )
    }
}

/// The lines of one field.
pub open spec fn field_lines(index: nat, e: Entry, name: Seq<char>) -> Seq<char> {
    if e.fields.contains_key(name) {
        data_line(index, name, e.fields[name])
    } else if e.multi.contains_key(name) {
        value_lines(index, name, e.multi[name])
    } else {
        Seq::empty()
    }
}

/// The lines of several fields.
pub open spec fn fields_lines(index: nat, e: Entry, names: Seq<Seq<char>>) -> Seq<char>
    decreases names.len(),
{
    if names.len() == 0 {
        Seq::empty()
    } else {
        fields_lines(index, e, names.drop_last()) + field_lines(index, e, names.last())
    }
}

/// The fields of a record that a client gets to see, in ascending order: all
/// of them, or those that it asked for.
pub open spec fn shown(e: Entry, requested: Seq<Seq<char>>) -> Seq<Seq<char>> {
    if requested.len() == 0 {
        listing(field_names(e))
    } else {
        sorted(requested.filter(|k: Seq<char>| field_names(e).contains(k)))
    }
}

/// The lines of all the records, which are numbered from one.
pub open spec fn record_lines(records: Seq<Entry>, requested: Seq<Seq<char>>) -> Seq<char>
    decreases records.len(),
{
    if records.len() == 0 {
        Seq::empty()
    } else {
        record_lines(records.drop_last(), requested) + fields_lines(
            records.len(),
            records.last(),
            shown(records.last(), requested),
        )
    }
}

/// The answer to a request with a value that is not acceptable.
pub open spec fn illegal_value(message: Seq<char>) -> Seq<char> {
    "512:Illegal value: "@ + message + "\n"@
}

/// The answer to a query.
pub open spec fn query_reply(r: Result<Seq<Entry>, Failure>, requested: Seq<Seq<char>>) -> Seq<char> {
    match r {
        Err(Failure::InvalidArgument(message)) => illegal_value(message),
        Err(_) => "500:Internal storage error\n"@,
        Ok(records) => if records.len() == 0 {
            "501:No matches to query\n"@
        } else {
            "102:There were "@ + decimal(records.len()) + " matches to your request.\n"@
                + record_lines(records, requested) + "200:Ok\n"@
        },
    }
}

fn push_blanks(s: &mut String, c: char)
    ensures
        final(s)@ == old(s)@ + Seq::new(utf8_width(c), |i: int| ' '),
{
    let ghost start = s@;
    let n: u32 = c as u32;
    s.push(' ');
    if n >= 0x80 {
        s.push(' ');
    }
    if n >= 0x800 {
        s.push(' ');
    }
    if n >= 0x1_0000 {
        s.push(' ');
    }
    proof {
        assert(s@ =~= start + Seq::new(utf8_width(c), |i: int| ' '));
    }
}

/// As many blanks as a name has bytes.
fn blanks_for(name: &str) -> (s: String)
    ensures
        s@ == padding(name@),
{
    let cs = chars_of(name);
    let mut s = String::new();
    let mut i: usize = 0;
    proof {
        assert(s@ =~= padding(name@.take(0)));
    }
    while i < cs.len()
        invariant
            i <= cs@.len(),
            cs@ == name@,
            s@ == padding(name@.take(i as int)),
        decreases cs.len() - i,
    {
        proof {
            assert(name@.take(i + 1).drop_last() =~= name@.take(i as int));
            assert(name@.take(i + 1).last() == cs@[i as int]);
        }
        push_blanks(&mut s, cs[i]);
        i = i + 1;
    }
    proof {
        assert(name@.take(i as int) =~= name@);
    }
    s
}

fn push_data_line(out: &mut String, index: usize, name: &str, value: &str)
    ensures
        final(out)@ == old(out)@ + data_line(index as nat, name@, value@),
{
    let ghost start = out@;
    out.append("-200:");
    out.append(decimal_text(index).as_str());
    out.append(":");
    out.append(name);
    out.append(": ");
    out.append(value);
    out.append("\n");
    proof {
        assert(out@ =~= start + data_line(index as nat, name@, value@));
    }
}

fn push_value_lines(out: &mut String, index: usize, name: &str, values: &Vec<String>)
    ensures
        final(out)@ == old(out)@ + value_lines(index as nat, name@, values.deep_view()),
{
    let ghost start = out@;
    let ghost all = values.deep_view();
    let blanks = blanks_for(name);
    let mut i: usize = 0;
    proof {
        assert(out@ =~= start + value_lines(index as nat, name@, all.take(0)));
    }
    while i < values.len()
        invariant
            i <= values@.len(),
            all == values.deep_view(),
            blanks@ == padding(name@),
            out@ == start + value_lines(index as nat, name@, all.take(i as int)),
        decreases values.len() - i,
    {
        let ghost before = out@;
        proof {
            assert(all.take(i + 1).drop_last() =~= all.take(i as int));
            assert(all.take(i + 1).last() == values@[i as int]@);
        }
        if i == 0 {
            push_data_line(out, index, name, values[i].as_str());
        } else {
            push_data_line(out, index, blanks.as_str(), values[i].as_str());
        }
        i = i + 1;
        proof {
            assert(out@ =~= start + value_lines(index as nat, name@, all.take(i as int)));
        }
    }
    proof {
        assert(all.take(i as int) =~= all);
    }
}

fn push_fields_lines(out: &mut String, index: usize, record: &Record, names: &Vec<String>)
    ensures
        final(out)@ == old(out)@ + fields_lines(index as nat, record@, names.deep_view()),
{
    let ghost start = out@;
    let ghost all = names.deep_view();
    let mut i: usize = 0;
    proof {
        assert(out@ =~= start + fields_lines(index as nat, record@, all.take(0)));
    }
    while i < names.len()
        invariant
            i <= names@.len(),
            all == names.deep_view(),
            out@ == start + fields_lines(index as nat, record@, all.take(i as int)),
        decreases names.len() - i,
    {
        let ghost before = out@;
        let name = names[i].as_str();
        proof {
            assert(all.take(i + 1).drop_last() =~= all.take(i as int));
            assert(all.take(i + 1).last() == name@);
        }
        match record.fields.get(name) {
            Some(value) => {
                push_data_line(out, index, name, value.as_str());
            },
            None => {
                match record.multi_fields.get(name) {
                    Some(values) => {
                        push_value_lines(out, index, name, values);
                    },
                    None => {},
                }
            },
        }
        i = i + 1;
        proof {
            assert(out@ =~= before + field_lines(index as nat, record@, name@));
            assert(out@ =~= start + fields_lines(index as nat, record@, all.take(i as int)));
        }
    }
    proof {
        assert(all.take(i as int) =~= all);
    }
}

/// The fields of a record that a client gets to see.
pub fn shown_names(record: &Record, requested: &[String]) -> (names: Vec<String>)
    ensures
        names.deep_view() == shown(record@, requested.deep_view()),
        requested@.len() == 0 ==> ascending(names.deep_view()) && names.deep_view().to_set()
            == field_names(record@),
{
    if requested.len() == 0 {
        let mut all: Vec<String> = Vec::new();
        proof {
            assert(all.deep_view().to_set() =~= Set::empty());
        }
        merge_field_names(&mut all, record);
        let r = sort_names(all.as_slice());
        proof {
            assert(Set::<Seq<char>>::empty().union(field_names(record@)) =~= field_names(record@));
            lemma_sorted(all.deep_view());
            law_listing_unique(r.deep_view(), field_names(record@));
        }
        r
    } else {
        let ghost all = requested.deep_view();
        let ghost known = |k: Seq<char>| field_names(record@).contains(k);
        let mut kept: Vec<String> = Vec::new();
        let mut i: usize = 0;
        proof {
            reveal(Seq::filter);
            assert(kept.deep_view() =~= all.take(0).filter(known));
        }
        while i < requested.len()
            invariant
                i <= requested@.len(),
                all == requested.deep_view(),
                known == (|k: Seq<char>| field_names(record@).contains(k)),
                kept.deep_view() == all.take(i as int).filter(known),
            decreases requested.len() - i,
        {
            proof {
                reveal(Seq::filter);
                assert(all.take(i + 1).drop_last() =~= all.take(i as int));
                assert(all.take(i + 1).last() == requested@[i as int]@);
            }
            let name = requested[i].as_str();
            if record.fields.contains_key(name) || record.multi_fields.contains_key(name) {
                let ghost before = kept.deep_view();
                kept.push(requested[i].clone());
                proof {
                    assert(kept.deep_view() =~= before.push(name@));
                }
            }
            i = i + 1;
        }
        proof {
            assert(all.take(i as int) =~= all);
        }
        sort_names(kept.as_slice())
    }
}

/// Writes the answer to a query.
pub fn answer_to_query(r: &Result<Vec<Record>, StorageError>, requested: &[String]) -> (s: String)
    ensures
        s@ == query_reply(found(*r), requested.deep_view()),
{
    match r {
        Err(StorageError::InvalidArgument(message)) => {
            let mut s = "512:Illegal value: ".to_string();
            s.append(message.as_str());
            s.append("\n");
            s
        },
        Err(_) => "500:Internal storage error\n".to_string(),
        Ok(records) => {
            if records.len() == 0 {
                return "501:No matches to query\n".to_string();
            }
            let mut s = "102:There were ".to_string();
            s.append(decimal_text(records.len()).as_str());
            s.append(" matches to your request.\n");
            let ghost start = s@;
            let ghost all = records.deep_view();
            let ghost asked = requested.deep_view();
            let mut i: usize = 0;
            proof {
                assert(s@ =~= start + record_lines(all.take(0), asked));
            }
            while i < records.len()
                invariant
                    i <= records@.len(),
                    all == records.deep_view(),
                    asked == requested.deep_view(),
                    s@ == start + record_lines(all.take(i as int), asked),
                decreases records.len() - i,
            {
                proof {
                    assert(all.take(i + 1).drop_last() =~= all.take(i as int));
                    assert(all.take(i + 1).last() == records@[i as int]@);
                }
                let names = shown_names(&records[i], requested);
                push_fields_lines(&mut s, i + 1, &records[i], &names);
                i = i + 1;
                proof {
                    assert(s@ =~= start + record_lines(all.take(i as int), asked));
                }
            }
            proof {
                assert(all.take(i as int) =~= all);
            }
            s.append("200:Ok\n");
            s
        },
    }
}

// ---------------------------------------------------------------------------
// The schema
// ---------------------------------------------------------------------------

/// The fields that every directory knows.
pub open spec fn baseline() -> Set<Seq<char>> {
    set!["type"@, "hostname"@, "alias"@, "created_at"@, "last_seen_at"@, "status"@]
}

/// The largest length of a field's value, and what the field is for.
pub open spec fn details(name: Seq<char>) -> (nat, Seq<char>) {
    if name == "type"@ {
        (64, "Record type discriminator (e.g. \"person\" or \"machine\")."@)
    } else if name == "hostname"@ {
        (
            256,
            "Unique identifier for a machine entry; used to detect an existing record on add/upsert."@,
        )
    } else if name == "alias"@ {
        (
            32,
            "Unique short identifier for a person entry; used to detect an existing record on add/upsert."@,
        )
    } else if name == "created_at"@ {
        (32, "ISO-8601 timestamp of when this entry was first created (server-injected)."@)
    } else if name == "last_seen_at"@ {
        (32, "ISO-8601 timestamp of the most recent update to this entry (server-injected)."@)
    } else if name == "status"@ {
        (64, "Free-form status/presence value (e.g. \"active\", \"online\", \"offline\")."@)
    } else {
        (256, "User-defined field; no additional metadata available."@)
    }
}

/// The names of the fields of some records.
pub open spec fn harvested(records: Seq<Entry>) -> Set<Seq<char>>
    decreases records.len(),
{
    if records.len() == 0 {
        Set::empty()
    } else {
        harvested(records.drop_last()).union(field_names(records.last()))
    }
}

/// The fields of a directory: those that every directory knows, and those of
/// its records.
pub open spec fn schema(r: Result<Seq<Entry>, Failure>) -> Seq<Seq<char>> {
    match r {
        Ok(records) => listing(baseline().union(harvested(records))),
        Err(_) => listing(baseline()),
    }
}

/// The two lines that describe a field.
pub open spec fn schema_entry(index: nat, name: Seq<char>) -> Seq<char> {
    "-200:"@ + decimal(index) + ":"@ + name + ":max "@ + decimal(details(name).0) + " Public\n-200:"@
        + decimal(index) + ":"@ + name + ":"@ + details(name).1 + "\n"@
}

/// Whether a field was asked for: without a request, every field is.
pub open spec fn wanted(requested: Seq<Seq<char>>, name: Seq<char>) -> bool {
    requested.len() == 0 || requested.contains(name)
}

/// The lines that describe the fields that were asked for. A field keeps its
/// number, whether the others are shown or not.
pub open spec fn schema_lines(names: Seq<Seq<char>>, requested: Seq<Seq<char>>) -> Seq<char>
    decreases names.len(),
{
    if names.len() == 0 {
        Seq::empty()
    } else {
        schema_lines(names.drop_last(), requested) + if wanted(requested, names.last()) {
            schema_entry(names.len(), names.last())
        } else {
            Seq::empty()
        }
    }
}

/// Fields were asked for, and there is none of them.
pub open spec fn no_such_field(names: Seq<Seq<char>>, requested: Seq<Seq<char>>) -> bool {
    requested.len() > 0 && forall|i: int|
        0 <= i < names.len() ==> !requested.contains(#[trigger] names[i])
}

/// The answer to a request for the schema.
pub open spec fn fields_reply(names: Seq<Seq<char>>, requested: Seq<Seq<char>>) -> Seq<char> {
    if no_such_field(names, requested) {
        "507:Field does not exist\n"@
    } else {
        schema_lines(names, requested) + "200:Ok.\n"@
    }
}

fn field_details(name: &str) -> (d: (usize, &'static str))
    ensures
        d.0 == details(name@).0,
        d.1@ == details(name@).1,
{
    if same_text(name, "type") {
        (64, "Record type discriminator (e.g. \"person\" or \"machine\").")
    } else if same_text(name, "hostname") {
        (
            256,
            "Unique identifier for a machine entry; used to detect an existing record on add/upsert.",
        )
    } else if same_text(name, "alias") {
        (
            32,
            "Unique short identifier for a person entry; used to detect an existing record on add/upsert.",
        )
    } else if same_text(name, "created_at") {
        (32, "ISO-8601 timestamp of when this entry was first created (server-injected).")
    } else if same_text(name, "last_seen_at") {
        (32, "ISO-8601 timestamp of the most recent update to this entry (server-injected).")
    } else if same_text(name, "status") {
        (64, "Free-form status/presence value (e.g. \"active\", \"online\", \"offline\").")
    } else {
        (256, "User-defined field; no additional metadata available.")
    }
}

fn push_schema_entry(out: &mut String, index: usize, name: &str)
    ensures
        final(out)@ == old(out)@ + schema_entry(index as nat, name@),
{
    let ghost start = out@;
    let (max, description) = field_details(name);
    let number = decimal_text(index);
    out.append("-200:");
    out.append(number.as_str());
    out.append(":");
    out.append(name);
    out.append(":max ");
    out.append(decimal_text(max).as_str());
    out.append(" Public\n-200:");
    out.append(number.as_str());
    out.append(":");
    out.append(name);
    out.append(":");
    out.append(description);
    out.append("\n");
    proof {
        assert(out@ =~= start + schema_entry(index as nat, name@));
    }
}

fn baseline_names() -> (names: Vec<String>)
    ensures
        names.deep_view().no_duplicates(),
        names.deep_view().to_set() == baseline(),
{
    let mut names: Vec<String> = Vec::new();
    proof {
        assert(names.deep_view().to_set() =~= Set::empty());
    }
    let ghost s0 = names.deep_view();
    list_once(&mut names, "type");
    let ghost s1 = names.deep_view();
    list_once(&mut names, "hostname");
    let ghost s2 = names.deep_view();
    list_once(&mut names, "alias");
    let ghost s3 = names.deep_view();
    list_once(&mut names, "created_at");
    let ghost s4 = names.deep_view();
    list_once(&mut names, "last_seen_at");
    let ghost s5 = names.deep_view();
    list_once(&mut names, "status");
    proof {
        lemma_add_once(s0, "type"@);
        lemma_add_once(s1, "hostname"@);
        lemma_add_once(s2, "alias"@);
        lemma_add_once(s3, "created_at"@);
        lemma_add_once(s4, "last_seen_at"@);
        lemma_add_once(s5, "status"@);
        assert(names.deep_view().to_set() =~= baseline());
    }
    names
}

/// The names of all the fields of a directory, in ascending order.
pub fn schema_names(r: &Result<Vec<Record>, StorageError>) -> (names: Vec<String>)
    ensures
        names.deep_view() == schema(found(*r)),
        ascending(names.deep_view()),
        names.deep_view().to_set() == match found(*r) {
            Ok(records) => baseline().union(harvested(records)),
            Err(_) => baseline(),
        },
{
    let mut all = baseline_names();
    let ghost target = match found(*r) {
        Ok(records) => baseline().union(harvested(records)),
        Err(_) => baseline(),
    };
    match r {
        Ok(records) => {
            let ghost entries = records.deep_view();
            let mut i: usize = 0;
            proof {
                assert(baseline().union(harvested(entries.take(0))) =~= baseline());
            }
            while i < records.len()
                invariant
                    i <= records@.len(),
                    entries == records.deep_view(),
                    all.deep_view().no_duplicates(),
                    all.deep_view().to_set() == baseline().union(
                        harvested(entries.take(i as int)),
                    ),
                decreases records.len() - i,
            {
                proof {
                    assert(entries.take(i + 1).drop_last() =~= entries.take(i as int));
                    assert(entries.take(i + 1).last() == records@[i as int]@);
                    assert(baseline().union(harvested(entries.take(i as int))).union(
                        field_names(records@[i as int]@),
                    ) =~= baseline().union(harvested(entries.take(i + 1))));
                }
                merge_field_names(&mut all, &records[i]);
                i = i + 1;
            }
            proof {
                assert(entries.take(i as int) =~= entries);
            }
        },
        Err(_) => {},
    }
    let names = sort_names(all.as_slice());
    proof {
        lemma_sorted(all.deep_view());
        law_listing_unique(names.deep_view(), target);
    }
    names
}

/// Writes the answer to a request for the schema, and says whether there is
/// none of the fields that were asked for.
pub fn answer_to_fields(names: &[String], requested: &[String]) -> (r: (String, bool))
    ensures
        r.0@ == fields_reply(names.deep_view(), requested.deep_view()),
        r.1 == no_such_field(names.deep_view(), requested.deep_view()),
{
    let ghost all = names.deep_view();
    let ghost asked = requested.deep_view();
    let mut s = String::new();
    let mut some: bool = false;
    let mut i: usize = 0;
    proof {
        assert(s@ =~= schema_lines(all.take(0), asked));
    }
    while i < names.len()
        invariant
            i <= names@.len(),
            all == names.deep_view(),
            asked == requested.deep_view(),
            s@ == schema_lines(all.take(i as int), asked),
            some ==> exists|j: int| 0 <= j < i && wanted(asked, #[trigger] all[j]),
            !some ==> forall|j: int| 0 <= j < i ==> !asked.contains(#[trigger] all[j]),
        decreases names.len() - i,
    {
        proof {
            assert(all.take(i + 1).drop_last() =~= all.take(i as int));
            assert(all.take(i + 1).last() == names@[i as int]@);
            assert(all[i as int] == names@[i as int]@);
        }
        let ghost before = s@;
        let name = names[i].as_str();
        if requested.len() == 0 || text_listed(requested, name) {
            push_schema_entry(&mut s, i + 1, name);
            some = true;
            proof {
                assert(wanted(asked, all[i as int]));
            }
        }
        i = i + 1;
        proof {
            assert(s@ =~= schema_lines(all.take(i as int), asked));
        }
    }
    proof {
        assert(all.take(i as int) =~= all);
    }
    if some || requested.len() == 0 {
        s.append("200:Ok.\n");
        (s, false)
    } else {
        ("507:Field does not exist\n".to_string(), true)
    }
}

// ---------------------------------------------------------------------------
// What holds of names
// ---------------------------------------------------------------------------

/// A record has finitely many fields, and they are shown in ascending order,
/// every one of them once.
pub proof fn law_fields_listed(record: Record)
    ensures
        field_names(record@).finite(),
        ascending(shown(record@, Seq::empty())),
        shown(record@, Seq::empty()).to_set() == field_names(record@),
{
    record.fields.lemma_finite();
    record.multi_fields.lemma_finite();
    law_listing(field_names(record@));
}

proof fn lemma_harvest_finite(records: Seq<Record>)
    ensures
        harvested(views(records)).finite(),
    decreases records.len(),
{
    if records.len() > 0 {
        lemma_harvest_finite(records.drop_last());
        law_fields_listed(records.last());
        assert(views(records).drop_last() =~= views(records.drop_last()));
        assert(views(records).last() == records.last()@);
    }
}

/// Records as values of the specification.
pub open spec fn views(records: Seq<Record>) -> Seq<Entry> {
    records.map_values(|r: Record| r@)
}

/// The schema names every field that a directory knows once, in ascending
/// order: those that every directory knows, and those of its records.
pub proof fn law_schema(records: Seq<Record>)
    ensures
        ascending(schema(Ok(views(records)))),
        schema(Ok(views(records))).to_set() == baseline().union(harvested(views(records))),
{
    lemma_harvest_finite(records);
    law_listing(baseline().union(harvested(views(records))));
}

/// How wide the padding below a name is: as wide as the name, counted in the
/// bytes of its encoding, all of it blanks.
pub proof fn law_padding(a: Seq<char>, b: Seq<char>, c: char)
    ensures
        padding(Seq::empty()).len() == 0,
        padding(a + b) == padding(a) + padding(b),
        padding(seq![c]).len() == (if c <= '\u{7f}' {
            1nat
        } else if c <= '\u{7ff}' {
            2
        } else if c <= '\u{ffff}' {
            3
        } else {
            4
        }),
        forall|i: int| 0 <= i < padding(a).len() ==> #[trigger] padding(a)[i] == ' ',
        is_ascii_text(a) ==> padding(a).len() == a.len(),
    decreases a.len() + b.len(),
{
    assert(seq![c].drop_last() =~= Seq::<char>::empty());
    assert(padding(seq![c].drop_last()).len() == 0);
    assert(padding(seq![c]).len() == utf8_width(c));
    lemma_blanks(a);
    if b.len() == 0 {
        assert(a + b =~= a);
        assert(padding(a) + padding(b) =~= padding(a));
    } else {
        law_padding(a, b.drop_last(), c);
        assert((a + b).drop_last() =~= a + b.drop_last());
        assert(padding(a + b) =~= padding(a) + padding(b));
    }
}

proof fn lemma_blanks(a: Seq<char>)
    ensures
        forall|i: int| 0 <= i < padding(a).len() ==> #[trigger] padding(a)[i] == ' ',
        is_ascii_text(a) ==> padding(a).len() == a.len(),
    decreases a.len(),
{
    if a.len() > 0 {
        let front = padding(a.drop_last());
        lemma_blanks(a.drop_last());
        assert forall|i: int| 0 <= i < padding(a).len() implies #[trigger] padding(a)[i] == ' ' by {
            if i < front.len() {
                assert(padding(a)[i] == front[i]);
            }
        }
        if is_ascii_text(a) {
            assert forall|i: int| 0 <= i < a.drop_last().len() implies (
            #[trigger] a.drop_last()[i] as u32) < 128 by {
                assert((a[i] as u32) < 128);
            }
            assert((a[a.len() - 1] as u32) < 128);
        }
    }
}

/// What a query is answered where it finds nothing or fails.
pub proof fn law_query_refused(requested: Seq<Seq<char>>, message: Seq<char>, f: Failure)
    ensures
        query_reply(Ok(Seq::empty()), requested) == "501:No matches to query\n"@,
        query_reply(Err(Failure::InvalidArgument(message)), requested) == "512:Illegal value: "@
            + message + "\n"@,
        !(f is InvalidArgument) ==> query_reply(Err(f), requested)
            == "500:Internal storage error\n"@,
{
}

/// What is listed of the records that a query finds: how many there are, then
/// each under its number, counted from one, then the end. One record more adds
/// its lines behind those before it.
pub proof fn law_records_listed(records: Seq<Entry>, e: Entry, requested: Seq<Seq<char>>)
    ensures
        records.len() > 0 ==> query_reply(Ok(records), requested) == "102:There were "@ + decimal(
            records.len(),
        ) + " matches to your request.\n"@ + record_lines(records, requested) + "200:Ok\n"@,
        record_lines(Seq::empty(), requested) == Seq::<char>::empty(),
        record_lines(records.push(e), requested) == record_lines(records, requested) + fields_lines(
            records.len() + 1,
            e,
            shown(e, requested),
        ),
{
    assert(records.push(e).drop_last() =~= records);
}

/// How the fields of a record are listed: each on a line with the number of the
/// record, its name and its value. The values of a list stand on lines of their
/// own, the name only before the first of them and blanks before the others.
pub proof fn law_field_listed(
    index: nat,
    e: Entry,
    names: Seq<Seq<char>>,
    name: Seq<char>,
    values: Seq<Seq<char>>,
    value: Seq<char>,
)
    ensures
        fields_lines(index, e, Seq::empty()) == Seq::<char>::empty(),
        fields_lines(index, e, names.push(name)) == fields_lines(index, e, names) + fields_lines(
            index,
            e,
            seq![name],
        ),
        e.fields.contains_key(name) ==> fields_lines(index, e, seq![name]) == "-200:"@ + decimal(
            index,
        ) + ":"@ + name + ": "@ + e.fields[name] + "\n"@,
        !e.fields.contains_key(name) && !e.multi.contains_key(name) ==> fields_lines(
            index,
            e,
            seq![name],
        ) == Seq::<char>::empty(),
        !e.fields.contains_key(name) && e.multi.contains_key(name) ==> fields_lines(
            index,
            e,
            seq![name],
        ) == value_lines(index, name, e.multi[name]),
        value_lines(index, name, Seq::empty()) == Seq::<char>::empty(),
        value_lines(index, name, seq![value]) == "-200:"@ + decimal(index) + ":"@ + name + ": "@
            + value + "\n"@,
        values.len() > 0 ==> value_lines(index, name, values.push(value)) == value_lines(
            index,
            name,
            values,
        ) + ("-200:"@ + decimal(index) + ":"@ + padding(name) + ": "@ + value + "\n"@),
{
    assert(names.push(name).drop_last() =~= names);
    assert(seq![name].drop_last() =~= Seq::<Seq<char>>::empty());
    assert(fields_lines(index, e, seq![name].drop_last()) == Seq::<char>::empty());
    assert(fields_lines(index, e, seq![name]) =~= field_lines(index, e, name));
    assert(seq![value].drop_last() =~= Seq::<Seq<char>>::empty());
    assert(value_lines(index, name, seq![value].drop_last()) == Seq::<char>::empty());
    assert(value_lines(index, name, seq![value]) =~= data_line(index, name, value));
    assert(values.push(value).drop_last() =~= values);
}

/// Which fields of a record are shown: without a request, all that it has,
/// plain ones and lists, in their order; otherwise those of the request that it
/// has, as often as they are asked for, in their order.
pub proof fn law_shown(e: Entry, requested: Seq<Seq<char>>)
    ensures
        requested.len() == 0 && e.fields.dom().finite() && e.multi.dom().finite() ==> {
            &&& ascending(shown(e, requested))
            &&& forall|k: Seq<char>| #[trigger]
                shown(e, requested).contains(k) <==> e.fields.contains_key(k)
                    || e.multi.contains_key(k)
        },
        requested.len() > 0 ==> {
            &&& shown(e, requested).to_multiset() == requested.filter(
                |k: Seq<char>| e.fields.contains_key(k) || e.multi.contains_key(k),
            ).to_multiset()
            &&& forall|i: int, j: int|
                0 <= i < j < shown(e, requested).len() ==> !before(
                    #[trigger] shown(e, requested)[j],
                    #[trigger] shown(e, requested)[i],
                )
        },
{
    let names = field_names(e);
    if requested.len() == 0 {
        if e.fields.dom().finite() && e.multi.dom().finite() {
            law_listing(names);
            let all = listing(names);
            assert forall|k: Seq<char>| #[trigger] all.contains(k) <==> e.fields.contains_key(k)
                || e.multi.contains_key(k) by {
                assert(all.to_set().contains(k) == names.contains(k));
            }
        }
    } else {
        let f = |k: Seq<char>| names.contains(k);
        let g = |k: Seq<char>| e.fields.contains_key(k) || e.multi.contains_key(k);
        assert(f =~= g);
        law_sorted(requested.filter(f));
    }
}

/// The fields that every directory has, whatever its records.
pub proof fn law_fields_of_all(records: Seq<Entry>, name: Seq<char>)
    ensures
        baseline().contains(name) <==> name == "type"@ || name == "hostname"@ || name == "alias"@
            || name == "created_at"@ || name == "last_seen_at"@ || name == "status"@,
        harvested(records).contains(name) <==> exists|i: int|
            0 <= i < records.len() && ((#[trigger] records[i]).fields.contains_key(name)
                || records[i].multi.contains_key(name)),
    decreases records.len(),
{
    if records.len() > 0 {
        let front = records.drop_last();
        law_fields_of_all(front, name);
        if harvested(front).contains(name) {
            let i = choose|i: int|
                0 <= i < front.len() && ((#[trigger] front[i]).fields.contains_key(name)
                    || front[i].multi.contains_key(name));
            assert(records[i] == front[i]);
        }
        if exists|i: int|
            0 <= i < records.len() && ((#[trigger] records[i]).fields.contains_key(name)
                || records[i].multi.contains_key(name)) {
            let i = choose|i: int|
                0 <= i < records.len() && ((#[trigger] records[i]).fields.contains_key(name)
                    || records[i].multi.contains_key(name));
            if i < front.len() {
                assert(front[i] == records[i]);
            }
        }
        assert(records[records.len() - 1] == records.last());
    }
}

/// How the fields are described: two lines for each that is wanted, under its
/// number among all of them. Where fields are asked for and there is none of
/// them, that is said instead.
pub proof fn law_fields_described(
    names: Seq<Seq<char>>,
    name: Seq<char>,
    requested: Seq<Seq<char>>,
)
    ensures
        requested.len() == 0 ==> fields_reply(names, requested) == schema_lines(names, requested)
            + "200:Ok.\n"@,
        (exists|i: int| 0 <= i < names.len() && requested.contains(#[trigger] names[i]))
            ==> fields_reply(names, requested) == schema_lines(names, requested) + "200:Ok.\n"@,
        requested.len() > 0 && (forall|i: int|
            0 <= i < names.len() ==> !requested.contains(#[trigger] names[i])) ==> fields_reply(
            names,
            requested,
        ) == "507:Field does not exist\n"@,
        schema_lines(Seq::empty(), requested) == Seq::<char>::empty(),
        requested.len() > 0 && !requested.contains(name) ==> schema_lines(
            names.push(name),
            requested,
        ) == schema_lines(names, requested),
        requested.len() == 0 || requested.contains(name) ==> schema_lines(
            names.push(name),
            requested,
        ) == schema_lines(names, requested) + ("-200:"@ + decimal(names.len() + 1) + ":"@ + name
            + ":max "@ + decimal(details(name).0) + " Public\n-200:"@ + decimal(names.len() + 1)
            + ":"@ + name + ":"@ + details(name).1 + "\n"@),
{
    assert(names.push(name).drop_last() =~= names);
    assert(schema_lines(names, requested) + Seq::<char>::empty() =~= schema_lines(
        names,
        requested,
    ));
}

/// What is said of a field: how long its value may be, and what it is for. Of a
/// field that not every directory has, nothing in particular.
pub proof fn law_field_details(name: Seq<char>)
    ensures
        details("type"@) == (
            64nat,
            "Record type discriminator (e.g. \"person\" or \"machine\")."@,
        ),
        details("hostname"@) == (
            256nat,
            "Unique identifier for a machine entry; used to detect an existing record on add/upsert."@,
        ),
        details("alias"@) == (
            32nat,
            "Unique short identifier for a person entry; used to detect an existing record on add/upsert."@,
        ),
        details("created_at"@) == (
            32nat,
            "ISO-8601 timestamp of when this entry was first created (server-injected)."@,
        ),
        details("last_seen_at"@) == (
            32nat,
            "ISO-8601 timestamp of the most recent update to this entry (server-injected)."@,
        ),
        details("status"@) == (
            64nat,
            "Free-form status/presence value (e.g. \"active\", \"online\", \"offline\")."@,
        ),
        !baseline().contains(name) ==> details(name) == (
            256nat,
            "User-defined field; no additional metadata available."@,
        ),
{
    law_fields_of_all(Seq::empty(), name);
    reveal_strlit("type");
    reveal_strlit("hostname");
    reveal_strlit("alias");
    reveal_strlit("created_at");
    reveal_strlit("last_seen_at");
    reveal_strlit("status");
    assert("type"@.len() == 4 && "hostname"@.len() == 8 && "alias"@.len() == 5
        && "created_at"@.len() == 10 && "last_seen_at"@.len() == 12 && "status"@.len() == 6);
}

} // verus!
