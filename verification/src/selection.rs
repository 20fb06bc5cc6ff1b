//! Choosing records: which records a list of selections picks out.

use vstd::prelude::*;

use crate::address::foreign;
use crate::address::ip_of;
use crate::address::law_foreign_character;
use crate::address::mac_octets;
use crate::address::parse_ip;
use crate::address::parse_mac_bytes;
use crate::address::same_ip;
use crate::address::same_mac;
use crate::error::Failure;
use crate::error::StorageError;
use crate::error::outcome;
use crate::field_map::FieldMap;
use crate::field_map::lemma_map_of;
use crate::field_map::map_of;
use crate::matching::contains_wildcard;
use crate::matching::has_wildcard;
use crate::matching::lemma_query_fault;
use crate::matching::match_value;
use crate::matching::query_fault;
use crate::matching::value_matches;
use crate::matching::wildcard_char;
use crate::pattern::match_pattern;
use crate::pattern::pattern_matches;
use crate::record::Entry;
use crate::record::Record;
use crate::record::is_address;
use crate::record::is_address_field;
use crate::text::chars_of;
use crate::text::lowercase;
use crate::text::same_text;
use crate::text::to_lowercase;

verus! {

/// One selection as a value of the specification: a field name, or none for
/// any field, and the value asked for.
pub type Pick = (Option<Seq<char>>, Seq<char>);

/// Whether one address of a record answers a query value.
///
/// An address in the query is compared as an address, whatever the notation. A
/// pattern is held against the whole text of the stored address. Anything else
/// is matched word by word.
pub open spec fn address_answers(
    name: Seq<char>,
    stored: Seq<char>,
    asked: Seq<char>,
) -> Result<bool, Failure> {
    if name == "ip_addr"@ && ip_of(asked) is Some {
        Ok(ip_of(stored) == ip_of(asked))
    } else if name == "mac_addr"@ && mac_octets(asked) is Some {
        Ok(mac_octets(stored) == mac_octets(asked))
    } else if has_wildcard(asked) {
        pattern_matches(lowercase(stored), lowercase(asked))
    } else {
        value_matches(stored, asked)
    }
}

/// Whether an address in a list answers. The addresses are tried in order, up
/// to the first that answers or fails.
pub open spec fn any_address_answers(
    name: Seq<char>,
    list: Seq<Seq<char>>,
    asked: Seq<char>,
) -> Result<bool, Failure>
    decreases list.len(),
{
    if list.len() == 0 {
        Ok(false)
    } else {
        match address_answers(name, list[0], asked) {
            Ok(false) => any_address_answers(name, list.drop_first(), asked),
            other => other,
        }
    }
}

/// A value stands somewhere in a record.
pub open spec fn holds_value(e: Entry, v: Seq<char>) -> bool {
    ||| exists|k: Seq<char>| #[trigger] e.fields.contains_key(k) && e.fields[k] == v
    ||| exists|k: Seq<char>| #[trigger] e.multi.contains_key(k) && e.multi[k].contains(v)
}

/// Whether some value of a record answers.
pub open spec fn any_value_answers(e: Entry, asked: Seq<char>) -> Result<bool, Failure> {
    if exists|v: Seq<char>| #[trigger]
        holds_value(e, v) && value_matches(v, asked) == Ok::<bool, Failure>(true) {
        Ok(true)
    } else if exists|v: Seq<char>| #[trigger] holds_value(e, v) && value_matches(v, asked) is Err {
        Err(query_fault(asked)->0)
    } else {
        Ok(false)
    }
}

/// Whether a record answers one selection.
pub open spec fn answers(e: Entry, pick: Pick) -> Result<bool, Failure> {
    match pick.0 {
        Some(name) => if is_address(name) {
            if e.multi.contains_key(name) {
                any_address_answers(name, e.multi[name], pick.1)
            } else {
                Ok(false)
            }
        } else if e.fields.contains_key(name) {
            value_matches(e.fields[name], pick.1)
        } else {
            Ok(false)
        },
        None => any_value_answers(e, pick.1),
    }
}

/// Whether a record answers every selection. The selections are tried in
/// order, up to the first that it does not answer.
pub open spec fn answers_all(e: Entry, picks: Seq<Pick>) -> Result<bool, Failure>
    decreases picks.len(),
{
    if picks.len() == 0 {
        Ok(true)
    } else {
        match answers(e, picks[0]) {
            Ok(true) => answers_all(e, picks.drop_first()),
            other => other,
        }
    }
}

/// Whether one address of a record answers a query value.
pub fn address_matches(field_name: &str, field_val: &str, query_val: &str) -> (r: Result<
    bool,
    StorageError,
>)
    ensures
        outcome(r) == address_answers(field_name@, field_val@, query_val@),
{
    proof {
        reveal_strlit("ip_addr");
        reveal_strlit("mac_addr");
        assert("ip_addr"@.len() != "mac_addr"@.len());
    }
    if same_text(field_name, "ip_addr") {
        if let Some(asked) = parse_ip(query_val) {
            return match parse_ip(field_val) {
                Some(stored) => Ok(same_ip(&stored, &asked)),
                None => Ok(false),
            };
        }
    } else if same_text(field_name, "mac_addr") {
        if let Some(asked) = parse_mac_bytes(query_val) {
            return match parse_mac_bytes(field_val) {
                Some(stored) => Ok(same_mac(&stored, &asked)),
                None => Ok(false),
            };
        }
    }
    if contains_wildcard(&chars_of(query_val)) {
        let word = chars_of(to_lowercase(field_val).as_str());
        let pattern = chars_of(to_lowercase(query_val).as_str());
        return match_pattern(&word, &pattern);
    }
    match_value(field_val, query_val)
}

fn any_address_matches(name: &str, list: &Vec<String>, asked: &str) -> (r: Result<
    bool,
    StorageError,
>)
    ensures
        outcome(r) == any_address_answers(name@, list.deep_view(), asked@),
{
    let ghost all = list.deep_view();
    let mut i: usize = 0;
    proof {
        assert(all.skip(0) =~= all);
    }
    while i < list.len()
        invariant
            i <= list@.len(),
            all == list.deep_view(),
            any_address_answers(name@, all.skip(i as int), asked@) == any_address_answers(
                name@,
                all,
                asked@,
            ),
        decreases list.len() - i,
    {
        proof {
            assert(all.skip(i as int)[0] == list@[i as int]@);
            assert(all.skip(i as int).drop_first() =~= all.skip(i + 1));
        }
        match address_matches(name, list[i].as_str(), asked) {
            Ok(false) => {},
            other => {
                return other;
            },
        }
        i = i + 1;
    }
    proof {
        assert(all.skip(i as int).len() == 0);
    }
    Ok(false)
}

/// Whether some plain value of a record answers, or the failure that trying
/// them met.
fn any_plain_matches(fields: &FieldMap<String>, asked: &str) -> (r: Result<bool, StorageError>)
    ensures
        match r {
            Ok(true) => exists|k: Seq<char>| #[trigger]
                fields@.contains_key(k) && value_matches(fields@[k], asked@) == Ok::<bool, Failure>(
                    true,
                ),
            Ok(false) => forall|k: Seq<char>| #[trigger]
                fields@.contains_key(k) ==> value_matches(fields@[k], asked@) == Ok::<
                    bool,
                    Failure,
                >(false),
            Err(e) => exists|k: Seq<char>| #[trigger]
                fields@.contains_key(k) && value_matches(fields@[k], asked@) == Err::<
                    bool,
                    Failure,
                >(e@),
        },
{
    let es = fields.entries();
    proof {
        lemma_map_of(es@);
    }
    let mut i: usize = 0;
    while i < es.len()
        invariant
            i <= es@.len(),
            fields@ == map_of(es@),
            forall|j: int|
                0 <= j < es@.len() ==> fields@.contains_key((#[trigger] es@[j]).0@)
                    && fields@[es@[j].0@] == es@[j].1.deep_view(),
            forall|j: int|
                0 <= j < i ==> value_matches((#[trigger] es@[j]).1@, asked@) == Ok::<bool, Failure>(
                    false,
                ),
        decreases es.len() - i,
    {
        proof {
            assert(fields@.contains_key(es@[i as int].0@));
        }
        match match_value(es[i].1.as_str(), asked) {
            Ok(false) => {},
            other => {
                return other;
            },
        }
        i = i + 1;
    }
    proof {
        assert forall|k: Seq<char>| #[trigger] fields@.contains_key(k) implies value_matches(
            fields@[k],
            asked@,
        ) == Ok::<bool, Failure>(false) by {
            let j = choose|j: int| 0 <= j < es@.len() && (#[trigger] es@[j]).0@ == k;
            assert(value_matches(es@[j].1@, asked@) == Ok::<bool, Failure>(false));
        }
    }
    Ok(false)
}

fn any_listed_matches(list: &Vec<String>, asked: &str) -> (r: Result<bool, StorageError>)
    ensures
        match r {
            Ok(true) => exists|v: Seq<char>| #[trigger]
                list.deep_view().contains(v) && value_matches(v, asked@) == Ok::<bool, Failure>(
                    true,
                ),
            Ok(false) => forall|v: Seq<char>| #[trigger]
                list.deep_view().contains(v) ==> value_matches(v, asked@) == Ok::<bool, Failure>(
                    false,
                ),
            Err(e) => exists|v: Seq<char>| #[trigger]
                list.deep_view().contains(v) && value_matches(v, asked@) == Err::<bool, Failure>(
                    e@,
                ),
        },
{
    let ghost all = list.deep_view();
    let mut i: usize = 0;
    while i < list.len()
        invariant
            i <= list@.len(),
            all == list.deep_view(),
            forall|j: int|
                0 <= j < i ==> value_matches(#[trigger] all[j], asked@) == Ok::<bool, Failure>(
                    false,
                ),
        decreases list.len() - i,
    {
        proof {
            assert(all[i as int] == list@[i as int]@);
            assert(all.contains(all[i as int]));
        }
        match match_value(list[i].as_str(), asked) {
            Ok(false) => {},
            other => {
                return other;
            },
        }
        i = i + 1;
    }
    Ok(false)
}

/// Whether some value among the listed ones of a record answers, or the
/// failure that trying them met.
fn any_multi_matches(multi: &FieldMap<Vec<String>>, asked: &str) -> (r: Result<bool, StorageError>)
    ensures
        match r {
            Ok(true) => exists|k: Seq<char>, v: Seq<char>|
                multi@.contains_key(k) && #[trigger] multi@[k].contains(v) && value_matches(
                    v,
                    asked@,
                ) == Ok::<bool, Failure>(true),
            Ok(false) => forall|k: Seq<char>, v: Seq<char>|
                multi@.contains_key(k) && #[trigger] multi@[k].contains(v) ==> value_matches(
                    v,
                    asked@,
                ) == Ok::<bool, Failure>(false),
            Err(e) => exists|k: Seq<char>, v: Seq<char>|
                multi@.contains_key(k) && #[trigger] multi@[k].contains(v) && value_matches(
                    v,
                    asked@,
                ) == Err::<bool, Failure>(e@),
        },
{
    let es = multi.entries();
    proof {
        lemma_map_of(es@);
    }
    let mut i: usize = 0;
    while i < es.len()
        invariant
            i <= es@.len(),
            multi@ == map_of(es@),
            forall|j: int|
                0 <= j < es@.len() ==> multi@.contains_key((#[trigger] es@[j]).0@)
                    && multi@[es@[j].0@] == es@[j].1.deep_view(),
            forall|j: int, v: Seq<char>|
                0 <= j < i && #[trigger] es@[j].1.deep_view().contains(v) ==> value_matches(
                    v,
                    asked@,
                ) == Ok::<bool, Failure>(false),
        decreases es.len() - i,
    {
        proof {
            assert(multi@.contains_key(es@[i as int].0@));
        }
        let r = any_listed_matches(&es[i].1, asked);
        match r {
            Ok(false) => {},
            Ok(true) => {
                proof {
                    let v = choose|v: Seq<char>| #[trigger]
                        es@[i as int].1.deep_view().contains(v) && value_matches(v, asked@) == Ok::<
                            bool,
                            Failure,
                        >(true);
                    assert(multi@[es@[i as int].0@].contains(v));
                }
                return Ok(true);
            },
            Err(e) => {
                proof {
                    let v = choose|v: Seq<char>| #[trigger]
                        es@[i as int].1.deep_view().contains(v) && value_matches(v, asked@) == Err::<
                            bool,
                            Failure,
                        >(e@);
                    assert(multi@[es@[i as int].0@].contains(v));
                }
                return Err(e);
            },
        }
        i = i + 1;
    }
    proof {
        assert forall|k: Seq<char>, v: Seq<char>|
            multi@.contains_key(k) && #[trigger] multi@[k].contains(v) implies value_matches(
            v,
            asked@,
        ) == Ok::<bool, Failure>(false) by {
            let j = choose|j: int| 0 <= j < es@.len() && (#[trigger] es@[j]).0@ == k;
            assert(es@[j].1.deep_view().contains(v));
        }
    }
    Ok(false)
}

fn any_value_matches(record: &Record, asked: &str) -> (r: Result<bool, StorageError>)
    ensures
        outcome(r) == any_value_answers(record@, asked@),
{
    let ghost e = record@;
    let plain = any_plain_matches(&record.fields, asked);
    match plain {
        Ok(true) => {
            proof {
                let k = choose|k: Seq<char>| #[trigger]
                    e.fields.contains_key(k) && value_matches(e.fields[k], asked@) == Ok::<
                        bool,
                        Failure,
                    >(true);
                assert(holds_value(e, e.fields[k]));
            }
            return Ok(true);
        },
        Ok(false) => {},
        Err(err) => {
            proof {
                let k = choose|k: Seq<char>| #[trigger]
                    e.fields.contains_key(k) && value_matches(e.fields[k], asked@) == Err::<
                        bool,
                        Failure,
                    >(err@);
                assert(holds_value(e, e.fields[k]));
                lemma_query_fault(e.fields[k], asked@);
                assert forall|v: Seq<char>| #[trigger] holds_value(e, v) implies value_matches(
                    v,
                    asked@,
                ) != Ok::<bool, Failure>(true) by {
                    lemma_query_fault(v, asked@);
                }
            }
            return Err(err);
        },
    }
    let listed = any_multi_matches(&record.multi_fields, asked);
    let ghost found = listed;
    proof {
        match found {
            Ok(true) => {
                let (k, v) = choose|k: Seq<char>, v: Seq<char>|
                    e.multi.contains_key(k) && #[trigger] e.multi[k].contains(v) && value_matches(
                        v,
                        asked@,
                    ) == Ok::<bool, Failure>(true);
                assert(holds_value(e, v));
            },
            Ok(false) => {
                assert forall|v: Seq<char>| #[trigger] holds_value(e, v) implies value_matches(
                    v,
                    asked@,
                ) == Ok::<bool, Failure>(false) by {}
            },
            Err(err) => {
                let (k, v) = choose|k: Seq<char>, v: Seq<char>|
                    e.multi.contains_key(k) && #[trigger] e.multi[k].contains(v) && value_matches(
                        v,
                        asked@,
                    ) == Err::<bool, Failure>(err@);
                assert(holds_value(e, v));
                lemma_query_fault(v, asked@);
                assert forall|w: Seq<char>| #[trigger] holds_value(e, w) implies value_matches(
                    w,
                    asked@,
                ) != Ok::<bool, Failure>(true) by {
                    lemma_query_fault(w, asked@);
                }
            },
        }
    }
    listed
}

fn selection_matches(record: &Record, field: &Option<String>, value: &str) -> (r: Result<
    bool,
    StorageError,
>)
    ensures
        outcome(r) == answers(record@, (field.deep_view(), value@)),
{
    match field {
        Some(name) => if is_address_field(name.as_str()) {
            match record.multi_fields.get(name.as_str()) {
                Some(list) => any_address_matches(name.as_str(), list, value),
                None => Ok(false),
            }
        } else {
            match record.fields.get(name.as_str()) {
                Some(stored) => match_value(stored.as_str(), value),
                None => Ok(false),
            }
        },
        None => any_value_matches(record, value),
    }
}

/// Whether a record answers every selection.
pub fn record_matches_selections(
    record: &Record,
    selections: &[(Option<String>, String)],
) -> (r: Result<bool, StorageError>)
    ensures
        outcome(r) == answers_all(record@, selections.deep_view()),
{
    let ghost all = selections.deep_view();
    let mut i: usize = 0;
    proof {
        assert(all.skip(0) =~= all);
    }
    while i < selections.len()
        invariant
            i <= selections@.len(),
            all == selections.deep_view(),
            answers_all(record@, all.skip(i as int)) == answers_all(record@, all),
        decreases selections.len() - i,
    {
        proof {
            assert(all.skip(i as int)[0] == selections@[i as int].deep_view());
            assert(all.skip(i as int).drop_first() =~= all.skip(i + 1));
        }
        match selection_matches(record, &selections[i].0, selections[i].1.as_str()) {
            Ok(true) => {},
            other => {
                return other;
            },
        }
        i = i + 1;
    }
    proof {
        assert(all.skip(i as int).len() == 0);
    }
    Ok(true)
}

// ---------------------------------------------------------------------------
// What holds of addresses in queries
// ---------------------------------------------------------------------------

/// A pattern is never an address: it is held against the whole of the stored
/// text, in either case, and never compared as an address.
pub proof fn law_pattern_is_no_address(name: Seq<char>, stored: Seq<char>, asked: Seq<char>)
    requires
        has_wildcard(asked),
    ensures
        mac_octets(asked) is None,
        ip_of(asked) is None,
        address_answers(name, stored, asked) == pattern_matches(
            lowercase(stored),
            lowercase(asked),
        ),
{
    let i = choose|i: int| 0 <= i < asked.len() && wildcard_char(#[trigger] asked[i]);
    assert(foreign(asked[i]));
    law_foreign_character(asked, asked[i]);
}

// ---------------------------------------------------------------------------
// What holds of selections
// ---------------------------------------------------------------------------

/// A selection without a field name looks at every value of a record: at the
/// plain fields and at the lists of addresses.
pub proof fn law_bare_selection_finds(e: Entry, k: Seq<char>, v: Seq<char>, asked: Seq<char>)
    requires
        value_matches(v, asked) == Ok::<bool, Failure>(true),
        (e.fields.contains_key(k) && e.fields[k] == v) || (e.multi.contains_key(k)
            && e.multi[k].contains(v)),
    ensures
        answers(e, (None, asked)) == Ok::<bool, Failure>(true),
{
    assert(holds_value(e, v));
}

/// A selection without a field name is answered only by a record that has a
/// value which matches. It is refused where it cannot be held against a value
/// of the record.
#[verifier::rlimit(40)]
#[verifier::spinoff_prover]
pub proof fn law_bare_selection_sound(e: Entry, asked: Seq<char>)
    ensures
        answers(e, (None, asked)) == Ok::<bool, Failure>(true) ==> exists|k: Seq<char>, v: Seq<char>|
            {
                &&& #[trigger] holds_at_name(e, k, v)
                &&& value_matches(v, asked) == Ok::<bool, Failure>(true)
            },
        answers(e, (None, asked)) is Err ==> exists|k: Seq<char>, v: Seq<char>|
            {
                &&& #[trigger] holds_at_name(e, k, v)
                &&& value_matches(v, asked) == answers(e, (None, asked))
            },
        (forall|k: Seq<char>, v: Seq<char>| #[trigger]
            holds_at_name(e, k, v) ==> value_matches(v, asked) == Ok::<bool, Failure>(false))
            ==> answers(e, (None, asked)) == Ok::<bool, Failure>(false),
        forall|k: Seq<char>, v: Seq<char>| #[trigger]
            holds_at_name(e, k, v) && value_matches(v, asked) is Err ==> answers(e, (None, asked))
                == value_matches(v, asked),
{
    assert forall|k: Seq<char>, v: Seq<char>| #[trigger]
        holds_at_name(e, k, v) && value_matches(v, asked) is Err implies answers(e, (None, asked))
        == value_matches(v, asked) by {
        assert(holds_value(e, v));
        lemma_query_fault(v, asked);
        assert forall|w: Seq<char>| #[trigger] holds_value(e, w) implies value_matches(w, asked)
            != Ok::<bool, Failure>(true) by {
            lemma_query_fault(w, asked);
        }
    }
    if exists|v: Seq<char>| #[trigger]
        holds_value(e, v) && value_matches(v, asked) == Ok::<bool, Failure>(true) {
        let v = choose|v: Seq<char>| #[trigger]
            holds_value(e, v) && value_matches(v, asked) == Ok::<bool, Failure>(true);
        let k = lemma_held_somewhere(e, v);
        assert(holds_at_name(e, k, v));
    } else if exists|v: Seq<char>| #[trigger] holds_value(e, v) && value_matches(v, asked) is Err {
        let v = choose|v: Seq<char>| #[trigger] holds_value(e, v) && value_matches(v, asked) is Err;
        let k = lemma_held_somewhere(e, v);
        assert(holds_at_name(e, k, v));
        lemma_query_fault(v, asked);
    }
}

/// A record has a value under a name, as the plain field or among the addresses
/// of that name.
pub open spec fn holds_at_name(e: Entry, k: Seq<char>, v: Seq<char>) -> bool {
    ||| e.fields.contains_key(k) && e.fields[k] == v
    ||| e.multi.contains_key(k) && e.multi[k].contains(v)
}

proof fn lemma_held_somewhere(e: Entry, v: Seq<char>) -> (k: Seq<char>)
    requires
        holds_value(e, v),
    ensures
        holds_at_name(e, k, v),
{
    if exists|k: Seq<char>| #[trigger] e.fields.contains_key(k) && e.fields[k] == v {
        choose|k: Seq<char>| #[trigger] e.fields.contains_key(k) && e.fields[k] == v
    } else {
        choose|k: Seq<char>| #[trigger] e.multi.contains_key(k) && e.multi[k].contains(v)
    }
}

/// A selection that names a field other than an address looks at the plain
/// field of that name and at nothing else.
pub proof fn law_named_selection(e: Entry, name: Seq<char>, asked: Seq<char>)
    requires
        name != "ip_addr"@,
        name != "mac_addr"@,
    ensures
        e.fields.contains_key(name) ==> answers(e, (Some(name), asked)) == value_matches(
            e.fields[name],
            asked,
        ),
        !e.fields.contains_key(name) ==> answers(e, (Some(name), asked)) == Ok::<bool, Failure>(
            false,
        ),
{
}

/// A selection on an address goes by the address, not by how it is written: it
/// is answered exactly where one of the addresses of the record, read as an
/// address, is the one that is asked for.
#[verifier::rlimit(40)]
#[verifier::spinoff_prover]
pub proof fn law_address_selection(e: Entry, asked: Seq<char>)
    ensures
        ip_of(asked) is Some ==> answers(e, (Some("ip_addr"@), asked)) == Ok::<bool, Failure>(
            e.multi.contains_key("ip_addr"@) && exists|i: int|
                0 <= i < e.multi["ip_addr"@].len() && ip_of(#[trigger] e.multi["ip_addr"@][i])
                    == ip_of(asked),
        ),
        mac_octets(asked) is Some ==> answers(e, (Some("mac_addr"@), asked)) == Ok::<bool, Failure>(
            e.multi.contains_key("mac_addr"@) && exists|i: int|
                0 <= i < e.multi["mac_addr"@].len() && mac_octets(
                    #[trigger] e.multi["mac_addr"@][i],
                ) == mac_octets(asked),
        ),
{
    lemma_address_names_differ();
    if ip_of(asked) is Some && e.multi.contains_key("ip_addr"@) {
        lemma_any_ip(e.multi["ip_addr"@], asked);
    }
    if mac_octets(asked) is Some && e.multi.contains_key("mac_addr"@) {
        lemma_any_mac(e.multi["mac_addr"@], asked);
    }
}

/// A selection on an address with a text that is no address: a pattern is held
/// against each whole address, any other text is matched as a value is. The
/// record answers where one of its addresses does, and not where it has none.
#[verifier::rlimit(40)]
#[verifier::spinoff_prover]
pub proof fn law_address_text_selection(e: Entry, name: Seq<char>, asked: Seq<char>)
    requires
        name == "ip_addr"@ || name == "mac_addr"@,
        name == "ip_addr"@ ==> ip_of(asked) is None,
        name == "mac_addr"@ ==> mac_octets(asked) is None,
    ensures
        answers(e, (Some(name), asked)) == Ok::<bool, Failure>(true) ==> e.multi.contains_key(name)
            && exists|i: int|
            0 <= i < e.multi[name].len() && text_matches(#[trigger] e.multi[name][i], asked)
                == Ok::<bool, Failure>(true),
        e.multi.contains_key(name) && (exists|i: int|
            0 <= i < e.multi[name].len() && text_matches(#[trigger] e.multi[name][i], asked)
                == Ok::<bool, Failure>(true)) ==> answers(e, (Some(name), asked)) == Ok::<
            bool,
            Failure,
        >(true),
        !e.multi.contains_key(name) || e.multi[name].len() == 0 ==> answers(e, (Some(name), asked))
            == Ok::<bool, Failure>(false),
        e.multi.contains_key(name) && e.multi[name].len() > 0 && text_matches(
            e.multi[name][0],
            asked,
        ) is Err ==> answers(e, (Some(name), asked)) == text_matches(e.multi[name][0], asked),
        e.multi.contains_key(name) && (forall|i: int|
            0 <= i < e.multi[name].len() ==> text_matches(#[trigger] e.multi[name][i], asked)
                == Ok::<bool, Failure>(false)) ==> answers(e, (Some(name), asked)) == Ok::<
            bool,
            Failure,
        >(false),
{
    lemma_address_names_differ();
    if e.multi.contains_key(name) {
        lemma_any_text(name, e.multi[name], asked);
        lemma_no_text(name, e.multi[name], asked);
    }
}

proof fn lemma_text_compared(name: Seq<char>, stored: Seq<char>, asked: Seq<char>)
    requires
        name == "ip_addr"@ || name == "mac_addr"@,
        name == "ip_addr"@ ==> ip_of(asked) is None,
        name == "mac_addr"@ ==> mac_octets(asked) is None,
    ensures
        address_answers(name, stored, asked) == text_matches(stored, asked),
{
    lemma_address_names_differ();
    reveal_strlit("*?+[]");
    let signs = "*?+[]"@;
    assert(signs =~= seq!['*', '?', '+', '[', ']']);
    assert forall|c: char| #[trigger] signs.contains(c) == wildcard_char(c) by {
        if wildcard_char(c) {
            assert(signs[0] == '*' && signs[1] == '?' && signs[2] == '+' && signs[3] == '['
                && signs[4] == ']');
        }
    }
}

#[verifier::rlimit(40)]
#[verifier::spinoff_prover]
proof fn lemma_no_text(name: Seq<char>, list: Seq<Seq<char>>, asked: Seq<char>)
    requires
        name == "ip_addr"@ || name == "mac_addr"@,
        name == "ip_addr"@ ==> ip_of(asked) is None,
        name == "mac_addr"@ ==> mac_octets(asked) is None,
    ensures
        list.len() > 0 && text_matches(list[0], asked) is Err ==> any_address_answers(
            name,
            list,
            asked,
        ) == text_matches(list[0], asked),
        (forall|i: int|
            0 <= i < list.len() ==> text_matches(#[trigger] list[i], asked) == Ok::<bool, Failure>(
                false,
            )) ==> any_address_answers(name, list, asked) == Ok::<bool, Failure>(false),
    decreases list.len(),
{
    if list.len() > 0 {
        let rest = list.drop_first();
        lemma_text_compared(name, list[0], asked);
        lemma_no_text(name, rest, asked);
        if forall|i: int|
            0 <= i < list.len() ==> text_matches(#[trigger] list[i], asked) == Ok::<bool, Failure>(
                false,
            ) {
            assert forall|i: int| 0 <= i < rest.len() implies text_matches(
                #[trigger] rest[i],
                asked,
            ) == Ok::<bool, Failure>(false) by {
                assert(rest[i] == list[i + 1]);
            }
        }
    }
}

/// What a text is held against as a query on addresses: one with a wildcard
/// against the whole, any other word by word.
pub open spec fn text_matches(stored: Seq<char>, asked: Seq<char>) -> Result<bool, Failure> {
    if exists|i: int| 0 <= i < asked.len() && "*?+[]"@.contains(#[trigger] asked[i]) {
        pattern_matches(lowercase(stored), lowercase(asked))
    } else {
        value_matches(stored, asked)
    }
}

proof fn lemma_address_names_differ()
    ensures
        "ip_addr"@ != "mac_addr"@,
{
    reveal_strlit("ip_addr");
    reveal_strlit("mac_addr");
    assert("ip_addr"@.len() == 7);
    assert("mac_addr"@.len() == 8);
}

/// One address answers a selection.
#[verifier::opaque]
spec fn hit(name: Seq<char>, stored: Seq<char>, asked: Seq<char>) -> bool {
    address_answers(name, stored, asked) == Ok::<bool, Failure>(true)
}

/// One address can be held against a selection.
#[verifier::opaque]
spec fn settled(name: Seq<char>, stored: Seq<char>, asked: Seq<char>) -> bool {
    address_answers(name, stored, asked) is Ok
}

proof fn lemma_first_address(name: Seq<char>, list: Seq<Seq<char>>, asked: Seq<char>)
    requires
        list.len() > 0,
        settled(name, list[0], asked),
    ensures
        any_address_answers(name, list, asked) == (if hit(name, list[0], asked) {
            Ok::<bool, Failure>(true)
        } else {
            any_address_answers(name, list.drop_first(), asked)
        }),
{
    reveal(hit);
    reveal(settled);
}

/// Some address of a list answers a selection.
spec fn hit_in(name: Seq<char>, list: Seq<Seq<char>>, asked: Seq<char>) -> bool {
    exists|i: int| 0 <= i < list.len() && #[trigger] hit(name, list[i], asked)
}

#[verifier::spinoff_prover]
proof fn lemma_any_hit(name: Seq<char>, list: Seq<Seq<char>>, asked: Seq<char>)
    requires
        forall|i: int| 0 <= i < list.len() ==> #[trigger] settled(name, list[i], asked),
    ensures
        any_address_answers(name, list, asked) == Ok::<bool, Failure>(hit_in(name, list, asked)),
    decreases list.len(),
{
    if list.len() > 0 {
        let rest = list.drop_first();
        assert(settled(name, list[0], asked));
        assert forall|i: int| 0 <= i < rest.len() implies #[trigger] settled(
            name,
            rest[i],
            asked,
        ) by {
            assert(settled(name, list[i + 1], asked));
        }
        lemma_any_hit(name, rest, asked);
        lemma_first_address(name, list, asked);
        assert(hit_in(name, list, asked) <==> hit(name, list[0], asked) || hit_in(
            name,
            rest,
            asked,
        )) by {
            if hit_in(name, list, asked) {
                let i = choose|i: int| 0 <= i < list.len() && #[trigger] hit(name, list[i], asked);
                if i > 0 {
                    assert(hit(name, rest[i - 1], asked));
                }
            }
            if hit_in(name, rest, asked) {
                let i = choose|i: int| 0 <= i < rest.len() && #[trigger] hit(name, rest[i], asked);
                assert(hit(name, list[i + 1], asked));
            }
        }
    }
}

proof fn lemma_ip_hit(stored: Seq<char>, asked: Seq<char>)
    requires
        ip_of(asked) is Some,
    ensures
        settled("ip_addr"@, stored, asked),
        hit("ip_addr"@, stored, asked) == (ip_of(stored) == ip_of(asked)),
{
    reveal(hit);
    reveal(settled);
}

proof fn lemma_mac_hit(stored: Seq<char>, asked: Seq<char>)
    requires
        mac_octets(asked) is Some,
    ensures
        settled("mac_addr"@, stored, asked),
        hit("mac_addr"@, stored, asked) == (mac_octets(stored) == mac_octets(asked)),
{
    lemma_address_names_differ();
    reveal(hit);
    reveal(settled);
}

#[verifier::spinoff_prover]
proof fn lemma_any_ip(list: Seq<Seq<char>>, asked: Seq<char>)
    requires
        ip_of(asked) is Some,
    ensures
        any_address_answers("ip_addr"@, list, asked) == Ok::<bool, Failure>(
            exists|i: int| 0 <= i < list.len() && ip_of(#[trigger] list[i]) == ip_of(asked),
        ),
{
    assert forall|i: int| 0 <= i < list.len() implies #[trigger] settled(
        "ip_addr"@,
        list[i],
        asked,
    ) by {
        lemma_ip_hit(list[i], asked);
    }
    lemma_any_hit("ip_addr"@, list, asked);
    if hit_in("ip_addr"@, list, asked) {
        let i = choose|i: int| 0 <= i < list.len() && #[trigger] hit("ip_addr"@, list[i], asked);
        lemma_ip_hit(list[i], asked);
    } else if exists|i: int| 0 <= i < list.len() && ip_of(#[trigger] list[i]) == ip_of(asked) {
        let i = choose|i: int| 0 <= i < list.len() && ip_of(#[trigger] list[i]) == ip_of(asked);
        lemma_ip_hit(list[i], asked);
        assert(hit("ip_addr"@, list[i], asked));
    }
}

#[verifier::spinoff_prover]
proof fn lemma_any_mac(list: Seq<Seq<char>>, asked: Seq<char>)
    requires
        mac_octets(asked) is Some,
    ensures
        any_address_answers("mac_addr"@, list, asked) == Ok::<bool, Failure>(
            exists|i: int|
                0 <= i < list.len() && mac_octets(#[trigger] list[i]) == mac_octets(asked),
        ),
{
    assert forall|i: int| 0 <= i < list.len() implies #[trigger] settled(
        "mac_addr"@,
        list[i],
        asked,
    ) by {
        lemma_mac_hit(list[i], asked);
    }
    lemma_any_hit("mac_addr"@, list, asked);
    if hit_in("mac_addr"@, list, asked) {
        let i = choose|i: int| 0 <= i < list.len() && #[trigger] hit("mac_addr"@, list[i], asked);
        lemma_mac_hit(list[i], asked);
    } else if exists|i: int|
        0 <= i < list.len() && mac_octets(#[trigger] list[i]) == mac_octets(asked) {
        let i = choose|i: int|
            0 <= i < list.len() && mac_octets(#[trigger] list[i]) == mac_octets(asked);
        lemma_mac_hit(list[i], asked);
        assert(hit("mac_addr"@, list[i], asked));
    }
}

proof fn lemma_text_fault(a: Seq<char>, b: Seq<char>, asked: Seq<char>)
    ensures
        text_matches(a, asked) is Err ==> text_matches(b, asked) != Ok::<bool, Failure>(true),
{
    lemma_query_fault(a, asked);
    lemma_query_fault(b, asked);
}

#[verifier::rlimit(40)]
#[verifier::spinoff_prover]
proof fn lemma_any_text(name: Seq<char>, list: Seq<Seq<char>>, asked: Seq<char>)
    requires
        name == "ip_addr"@ || name == "mac_addr"@,
        name == "ip_addr"@ ==> ip_of(asked) is None,
        name == "mac_addr"@ ==> mac_octets(asked) is None,
    ensures
        any_address_answers(name, list, asked) == Ok::<bool, Failure>(true) <==> exists|i: int|
            0 <= i < list.len() && text_matches(#[trigger] list[i], asked) == Ok::<bool, Failure>(
                true,
            ),
    decreases list.len(),
{
    if list.len() > 0 {
        let rest = list.drop_first();
        lemma_any_text(name, rest, asked);
        lemma_text_compared(name, list[0], asked);
        if exists|i: int|
            0 <= i < list.len() && text_matches(#[trigger] list[i], asked) == Ok::<bool, Failure>(
                true,
            ) {
            let i = choose|i: int|
                0 <= i < list.len() && text_matches(#[trigger] list[i], asked) == Ok::<
                    bool,
                    Failure,
                >(true);
            lemma_text_fault(list[0], list[i], asked);
            if i > 0 {
                assert(rest[i - 1] == list[i]);
            }
        }
        if any_address_answers(name, list, asked) == Ok::<bool, Failure>(true) && text_matches(
            list[0],
            asked,
        ) != Ok::<bool, Failure>(true) {
            let i = choose|i: int|
                0 <= i < rest.len() && text_matches(#[trigger] rest[i], asked) == Ok::<
                    bool,
                    Failure,
                >(true);
            assert(list[i + 1] == rest[i]);
        }
    }
}

/// A record answers a selection.
pub open spec fn answers_one(e: Entry, pick: Pick) -> bool {
    answers(e, pick) == Ok::<bool, Failure>(true)
}

/// A record answers each of the selections, one by one.
pub open spec fn answers_each(e: Entry, picks: Seq<Pick>) -> bool {
    forall|i: int| 0 <= i < picks.len() ==> #[trigger] answers_one(e, picks[i])
}

/// A record answers no selections at all, and it answers a list of selections
/// exactly where it answers each of them.
#[verifier::rlimit(40)]
#[verifier::spinoff_prover]
pub proof fn law_every_selection(e: Entry, picks: Seq<Pick>)
    ensures
        answers_all(e, Seq::empty()) == Ok::<bool, Failure>(true),
        answers_all(e, picks) == Ok::<bool, Failure>(true) <==> answers_each(e, picks),
    decreases picks.len(),
{
    if picks.len() > 0 {
        let rest = picks.drop_first();
        law_every_selection(e, rest);
        assert(answers_each(e, picks) <==> answers_one(e, picks[0]) && answers_each(e, rest)) by {
            if answers_each(e, picks) {
                assert forall|i: int| 0 <= i < rest.len() implies #[trigger] answers_one(
                    e,
                    rest[i],
                ) by {
                    assert(answers_one(e, picks[i + 1]));
                }
            }
            if answers_one(e, picks[0]) && answers_each(e, rest) {
                assert forall|i: int| 0 <= i < picks.len() implies #[trigger] answers_one(
                    e,
                    picks[i],
                ) by {
                    if i > 0 {
                        assert(answers_one(e, rest[i - 1]));
                    }
                }
            }
        }
    }
}

/// The first selection that a record does not answer decides.
pub proof fn law_first_unanswered(e: Entry, picks: Seq<Pick>, i: int)
    requires
        0 <= i < picks.len(),
        answers(e, picks[i]) != Ok::<bool, Failure>(true),
        answers_each(e, picks.take(i)),
    ensures
        answers_all(e, picks) == answers(e, picks[i]),
    decreases picks.len(),
{
    if i > 0 {
        let rest = picks.drop_first();
        assert(answers_one(e, picks.take(i)[0]));
        assert(rest[i - 1] == picks[i]);
        assert forall|j: int| 0 <= j < rest.take(i - 1).len() implies #[trigger] answers_one(
            e,
            rest.take(i - 1)[j],
        ) by {
            assert(answers_one(e, picks.take(i)[j + 1]));
        }
        law_first_unanswered(e, rest, i - 1);
    }
}

} // verus!
