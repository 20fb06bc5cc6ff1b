//! What holds across operations, on concrete values.

use pharos::address::parse_mac_bytes;
use pharos::client::LineOutcome;
use pharos::client::PharosClient;
use pharos::client::PharosResponse;
use pharos::client::ResponseReader;
use pharos::file_storage::FileStorage;
use pharos::record::Record;
use pharos::record::UpsertOutcome;
use pharos::session::AuthFinding;
use pharos::session::Session;
use pharos::storage::MemoryStorage;
use pharos::storage::Storage;

fn pair(k: &str, v: &str) -> (String, String) {
    (k.to_string(), v.to_string())
}

fn pick(k: &str, v: &str) -> (Option<String>, String) {
    (Some(k.to_string()), v.to_string())
}

fn machine(hostname: &str, more: &[(&str, &str)]) -> Vec<(String, String)> {
    let mut fields = vec![pair("type", "machine"), pair("hostname", hostname)];
    for (k, v) in more {
        fields.push(pair(k, v));
    }
    fields
}

fn ids(records: &[Record]) -> Vec<usize> {
    records.iter().map(|r| r.id).collect()
}

fn response(reply: &str) -> PharosResponse {
    let mut reader = ResponseReader::new();
    for line in reply.lines() {
        match reader.read(line) {
            LineOutcome::More => {}
            LineOutcome::Complete(r) => return r,
            LineOutcome::BadCode(c) => panic!("bad code {}", c),
        }
    }
    panic!("the reply ends too early")
}

#[test]
fn gives_no_identifier_twice() {
    let mut s = MemoryStorage::new();
    for h in ["a", "b", "c"] {
        s.add_record(machine(h, &[]), None, None).unwrap();
    }
    assert_eq!(ids(&s.query(&[], None).unwrap()), vec![1, 2, 3]);
    assert_eq!(s.delete_record(&[pick("hostname", "c")], None, &[], &[]).unwrap(), 1);
    s.add_record(machine("d", &[]), None, None).unwrap();
    assert_eq!(ids(&s.query(&[], None).unwrap()), vec![1, 2, 4]);
    assert_eq!(s.query(&[pick("hostname", "c")], None).unwrap().len(), 0);
}

#[test]
fn selections_narrow_each_other() {
    let mut s = MemoryStorage::new();
    s.add_record(machine("a", &[("room", "1")]), None, None).unwrap();
    s.add_record(machine("b", &[("room", "1")]), None, None).unwrap();
    s.add_record(machine("b", &[("room", "2")]), None, None).unwrap();
    let both = s.query(&[pick("hostname", "b"), pick("room", "1")], None).unwrap();
    assert_eq!(ids(&both), vec![2]);
    assert_eq!(ids(&s.query(&[pick("room", "1")], None).unwrap()), vec![1, 2]);
}

#[test]
fn an_upsert_can_be_repeated() {
    let mut s = MemoryStorage::new();
    let fields = machine("a", &[("ip_addr", "10.0.0.1"), ("os", "linux")]);
    assert!(matches!(s.upsert_record(fields.clone(), None, None), Ok(UpsertOutcome::Created)));
    assert!(matches!(s.upsert_record(fields.clone(), None, None), Ok(UpsertOutcome::Updated)));
    assert!(matches!(s.upsert_record(fields, None, None), Ok(UpsertOutcome::Updated)));
    let all = s.query(&[], None).unwrap();
    assert_eq!(ids(&all), vec![1]);
    assert_eq!(all[0].fields.get("os").unwrap(), "linux");
    assert_eq!(all[0].multi_fields.get("ip_addr").unwrap(), &vec!["10.0.0.1".to_string()]);
}

#[test]
fn a_refused_write_changes_nothing() {
    let owner = || Some("fp".to_string());
    let other = || Some("other".to_string());
    let mut s = MemoryStorage::new();
    s.upsert_record(machine("a", &[("os", "linux")]), owner(), None).unwrap();
    s.upsert_record(machine("b", &[]), other(), None).unwrap();
    let picks = [pick("type", "machine")];
    assert!(s.change_record(&picks, &[pair("os", "bsd")], other(), &[]).is_err());
    assert!(s.delete_record(&picks, other(), &[], &[]).is_err());
    assert!(s.upsert_record(machine("a", &[("os", "bsd")]), other(), None).is_err());
    let all = s.query(&[], None).unwrap();
    assert_eq!(ids(&all), vec![1, 2]);
    assert_eq!(all[0].fields.get("os").unwrap(), "linux");
    assert_eq!(all[1].fields.get("os"), None);
}

#[test]
fn a_written_value_is_found() {
    let mut s = MemoryStorage::new();
    for v in ["linux", "Red Hat 9", "10.0.0.1", "x"] {
        s.add_record(machine("a", &[("os", v)]), None, None).unwrap();
        assert!(!s.query(&[pick("os", v)], None).unwrap().is_empty());
    }
}

#[test]
fn a_file_gives_back_what_was_written() {
    let mut s = FileStorage::new("records.json".to_string(), None);
    s.add_record(machine("a", &[("ip_addr", "10.0.0.1")]), None, Some("ops".to_string())).unwrap();
    s.upsert_record(machine("b", &[]), Some("fp".to_string()), None).unwrap();
    let before = s.query(&[], None).unwrap();
    let mut queue = s.take_queue();
    let written = queue.pop().unwrap();
    let again = FileStorage::new("records.json".to_string(), Some(written));
    let after = again.query(&[], None).unwrap();
    assert_eq!(ids(&after), ids(&before));
    for (a, b) in after.iter().zip(before.iter()) {
        assert_eq!(a.fields.entries(), b.fields.entries());
        assert_eq!(a.multi_fields.entries(), b.multi_fields.entries());
        assert_eq!(a.record_type, b.record_type);
        assert_eq!(a.owner_fingerprint, b.owner_fingerprint);
        assert_eq!(a.owner_team, b.owner_team);
    }
}

#[test]
fn a_client_reads_what_the_server_writes() {
    let mut s = MemoryStorage::new();
    s.add_record(machine("web-1", &[("os", "linux")]), None, None).unwrap();
    s.add_record(machine("web-2", &[("os", "bsd")]), None, None).unwrap();
    let session = Session::new("10.0.0.9:5", false);
    let shown = ["hostname".to_string(), "os".to_string()];
    let r = session.answer_query(&s, &[pick("hostname", "web-*")], &shown);
    assert!(!r.cut_short);
    match response(&r.reply) {
        PharosResponse::Matches { count, records } => {
            assert_eq!(count, 2);
            assert_eq!(records.len(), 2);
            assert_eq!(records[0].fields[0].key, "hostname");
            assert_eq!(records[0].fields[0].value, "web-1");
            assert_eq!(records[1].fields[1].key, "os");
            assert_eq!(records[1].fields[1].value, "bsd");
        }
        other => panic!("unexpected {:?}", other),
    }
    let none = session.answer_query(&s, &[pick("hostname", "db")], &shown);
    assert_eq!(response(&none.reply), PharosResponse::Matches { count: 0, records: vec![] });
    let mut session = session;
    let refused = session.answer_auth(AuthFinding::NoChallenge);
    assert_eq!(
        response(&refused.reply),
        PharosResponse::AuthenticationRequired { challenge: String::new() }
    );
    let login = session.answer_login("jane", "c-1");
    assert_eq!(PharosClient::new("ph").challenge(login.reply.trim()), Ok("c-1".to_string()));
}

#[test]
fn a_failed_command_is_cut_short() {
    let s = MemoryStorage::new();
    let session = Session::new("p", false);
    let r = session.answer_fields(&s, &["no-such-field".to_string()]);
    assert_eq!(r.reply, "507:Field does not exist\n");
    assert!(r.cut_short);
    assert!(!session.answer_fields(&s, &[]).cut_short);
}

#[test]
fn looks_at_records_only_where_a_limit_asks_for_it() {
    let mut session = Session::new("p", false);
    assert!(!session.looks_before_change());
    assert!(!session.looks_before_delete());
    session.options.addonly = true;
    assert!(session.looks_before_change());
    assert!(!session.looks_before_delete());
    session.options.limit = Some(1);
    assert!(session.looks_before_delete());
}

#[test]
fn a_pattern_is_never_an_address() {
    let s = MemoryStorage::new();
    assert_eq!(parse_mac_bytes("+1:24:11:00:02:04"), None);
    assert_eq!(parse_mac_bytes("a1:24:11:00:02:+4"), None);
    assert_eq!(parse_mac_bytes("1:24:11:0:2:4"), Some([1, 0x24, 0x11, 0, 2, 4]));
    assert!(s.address_matches("mac_addr", "a1:24:11:00:02:04", "+1:24:11:00:02:04").unwrap());
    assert!(!s.address_matches("mac_addr", "a2:24:11:00:02:04", "+1:24:11:00:02:04").unwrap());
    let mut s = MemoryStorage::new();
    let fields = machine("a", &[("mac_addr", "+1:24:11:00:02:04")]);
    assert!(s.add_record(fields, None, None).is_err());
}

#[test]
fn a_change_keeps_the_source() {
    let mut s = MemoryStorage::new();
    s.add_record(machine("h1", &[("source", "mdb")]), None, None).unwrap();
    s.add_record(machine("h2", &[]), None, None).unwrap();
    let change = [pair("source", "forged"), pair("os", "bsd")];
    assert_eq!(s.change_record(&[pick("type", "machine")], &change, None, &[]).unwrap(), 2);
    let all = s.query(&[], None).unwrap();
    assert_eq!(all[0].fields.get("source").unwrap(), "mdb");
    assert_eq!(all[0].fields.get("os").unwrap(), "bsd");
    assert_eq!(all[1].fields.get("source").unwrap(), "forged");
}

#[test]
fn every_write_survives_a_restart() {
    let mut s = FileStorage::new("records.json".to_string(), None);
    let mut file: Vec<Record> = Vec::new();
    for step in 0..6 {
        match step {
            0 => s.add_record(machine("a", &[("ip_addr", "10.0.0.1")]), None, None).unwrap(),
            1 => {
                s.upsert_record(machine("b", &[("os", "linux")]), None, None).unwrap();
            }
            2 => {
                s.upsert_record(machine("b", &[("mac_addr", "1:2:3:4:5:6")]), None, None).unwrap();
            }
            3 => {
                s.change_record(&[pick("hostname", "a")], &[pair("os", "bsd")], None, &[]).unwrap();
            }
            4 => {
                s.delete_record(&[pick("hostname", "a")], None, &[], &[]).unwrap();
            }
            _ => {
                assert_eq!(s.delete_record(&[pick("hostname", "x")], None, &[], &[]).unwrap(), 0);
            }
        }
        assert_eq!(s.path(), "records.json");
        if let Some(last) = s.take_queue().pop() {
            file = last;
        }
        let mut again = FileStorage::new("records.json".to_string(), Some(file.clone()));
        assert_eq!(again.take_queue().len(), 0);
        let (was, is) = (s.query(&[], None).unwrap(), again.query(&[], None).unwrap());
        assert_eq!(ids(&was), ids(&is));
        for (a, b) in was.iter().zip(is.iter()) {
            assert_eq!(a.fields.entries(), b.fields.entries());
            assert_eq!(a.multi_fields.entries(), b.multi_fields.entries());
            assert_eq!(a.record_type, b.record_type);
        }
    }
}

#[test]
fn an_upsert_never_changes_the_type() {
    let mut s = MemoryStorage::new();
    s.upsert_record(machine("a", &[]), None, None).unwrap();
    // The second of two types is refused as the first would be.
    let fields = machine("a", &[("type", "person")]);
    assert!(s.upsert_record(fields, None, None).is_err());
    let all = s.query(&[], None).unwrap();
    assert_eq!(all[0].fields.get("type").unwrap(), "machine");
    assert!(s.upsert_record(machine("a", &[("type", "machine")]), None, None).is_ok());
}
