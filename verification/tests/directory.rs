//! Directories that are kept in files or at LDAP servers.

use pharos::config::read_only_ids;
use pharos::config::server_keys_directory;
use pharos::config::Backend;
use pharos::config::SecurityTier;
use pharos::config::choose_backend;
use pharos::config::gigabytes;
use pharos::config::security_tier;
use pharos::config::validate_env;
use pharos::error::StorageError;
use pharos::file_storage::FileStorage;
use pharos::ldap::LdapStorage;
use pharos::record::Record;
use pharos::record::RecordType;
use pharos::storage::MemoryStorage;
use pharos::storage::Storage;

fn pair(k: &str, v: &str) -> (String, String) {
    (k.to_string(), v.to_string())
}

fn pick(k: &str, v: &str) -> (Option<String>, String) {
    (Some(k.to_string()), v.to_string())
}

fn stored(id: usize, record_type: Option<RecordType>, fields: &[(&str, &str)]) -> Record {
    let mut record = Record::default();
    record.id = id;
    record.record_type = record_type;
    for (k, v) in fields {
        record.fields.insert(k.to_string(), v.to_string());
    }
    record
}

#[test]
fn test_should_persist_and_reload_records_when_using_file_storage() {
    let mut storage = FileStorage::new("pharos_test_rbac.json".to_string(), None);
    let fields = vec![
        ("type".to_string(), "person".to_string()),
        ("name".to_string(), "Persistent Pete".to_string()),
    ];
    storage.add_record(fields, None, None).unwrap();
    assert_eq!(storage.record_count(), 1);
    let mut queue = storage.take_queue();
    assert_eq!(queue.len(), 1);

    let storage = FileStorage::new("pharos_test_rbac.json".to_string(), queue.pop());
    assert_eq!(storage.record_count(), 1);
    let results = storage.query(&[(Some("name".to_string()), "pete".to_string())], None).unwrap();
    assert_eq!(results.len(), 1);
}

#[test]
fn test_should_self_heal_record_type_on_load_from_disk() {
    let record = stored(1, None, &[("hostname", "srv-heal"), ("type", "machine")]);
    let mut storage = FileStorage::new("pharos_test_self_heal.json".to_string(), Some(vec![record]));
    let records = storage.query(&[(Some("hostname".to_string()), "srv-heal".to_string())], None).unwrap();
    assert_eq!(records.len(), 1);
    assert_eq!(records[0].record_type, Some(RecordType::Machine));
    assert_eq!(storage.take_queue().len(), 1);
    assert_eq!(storage.take_queue().len(), 0);
}

#[test]
fn test_should_migrate_legacy_plain_ip_addr_field_on_load_from_disk() {
    let record = stored(2, Some(RecordType::Machine), &[
        ("hostname", "legacy-host"),
        ("type", "machine"),
        ("ip_addr", "172.17.0.1"),
        ("mac_addr", "de:16:42:a0:af:ee"),
    ]);
    let mut storage = FileStorage::new("legacy.json".to_string(), Some(vec![record]));
    let records = storage.query(&[(Some("hostname".to_string()), "legacy-host".to_string())], None).unwrap();
    assert_eq!(records.len(), 1);
    assert_eq!(records[0].fields.get("ip_addr"), None);
    assert_eq!(records[0].fields.get("mac_addr"), None);
    assert_eq!(records[0].multi_fields.get("ip_addr"), Some(&vec!["172.17.0.1".to_string()]));
    assert_eq!(records[0].multi_fields.get("mac_addr"), Some(&vec!["de:16:42:a0:af:ee".to_string()]));
    assert_eq!(storage.take_queue().len(), 1);
}

#[test]
fn numbers_on_from_the_largest_identifier() {
    let records = vec![
        stored(7, Some(RecordType::Machine), &[("hostname", "a"), ("type", "machine")]),
        stored(3, Some(RecordType::Machine), &[("hostname", "b"), ("type", "machine")]),
    ];
    let mut storage = FileStorage::new("f.json".to_string(), Some(records));
    assert_eq!(storage.path(), "f.json");
    assert!(storage.has_space());
    assert!(storage.take_queue().is_empty());
    storage.upsert_record(vec![pair("type", "machine"), pair("hostname", "c")], None, None).unwrap();
    let found = storage.query(&[pick("hostname", "c")], None).unwrap();
    assert_eq!(found[0].id, 8);
    assert_eq!(storage.take_queue().len(), 1);
}

#[test]
fn queues_only_what_changed() {
    let mut storage = FileStorage::new("f.json".to_string(), None);
    assert!(storage.add_record(vec![pair("name", "x")], None, None).is_err());
    assert!(storage.take_queue().is_empty());
    storage.add_record(vec![pair("type", "machine"), pair("hostname", "a")], None, None).unwrap();
    assert_eq!(storage.take_queue().len(), 1);
    assert_eq!(storage.change_record(&[pick("hostname", "z")], &[pair("k", "v")], None, &[]).unwrap(), 0);
    assert_eq!(storage.delete_record(&[pick("hostname", "z")], None, &[], &[]).unwrap(), 0);
    assert!(storage.take_queue().is_empty());
    assert_eq!(storage.change_record(&[pick("hostname", "a")], &[pair("k", "v")], None, &[]).unwrap(), 1);
    assert_eq!(storage.delete_record(&[pick("hostname", "a")], None, &[], &[]).unwrap(), 1);
    let queue = storage.take_queue();
    assert_eq!(queue.len(), 2);
    assert_eq!(queue[0].len(), 1);
    assert_eq!(queue[1].len(), 0);
    assert!(MemoryStorage::new().has_space());
}

#[test]
fn says_what_went_wrong() {
    let messages: Vec<String> = vec![
        StorageError::Collision.message(),
        StorageError::Unauthorized.message(),
        StorageError::InvalidArgument("a".to_string()).message(),
        StorageError::Internal("b".to_string()).message(),
        StorageError::TooManyEntries(12).message(),
        StorageError::AddOnlyViolation.message(),
        StorageError::ReadOnly.message(),
    ];
    assert_eq!(messages, vec![
        "Record already exists and is bonded to a different fingerprint (Collision)",
        "Unauthorized: Record belongs to another team",
        "Invalid argument: a",
        "Internal storage error: b",
        "Too many entries selected (12 matched)",
        "Change command would have overridden existing field, and addonly option is on",
        "Operation failed because database is read-only",
    ]);
}

fn ldap() -> LdapStorage {
    LdapStorage::new(
        "ldap://h".to_string(),
        "cn=admin".to_string(),
        "pw".to_string(),
        "dc=example".to_string(),
    )
}

#[test]
fn builds_filters() {
    let s = ldap();
    assert_eq!(s.base_dn, "dc=example");
    assert_eq!(s.build_filter(&[], None), "(objectClass=*)");
    assert_eq!(s.build_filter(&[], Some(RecordType::Person)), "(objectClass=inetOrgPerson)");
    assert_eq!(s.build_filter(&[pick("email", "a@b")], None), "(mail=a@b)");
    assert_eq!(s.build_filter(&[(None, "jane".to_string())], None), "(|(cn=jane)(mail=jane))");
    assert_eq!(
        s.build_filter(
            &[pick("hostname", "h"), pick("ip", "10.0.0.1"), pick("room", "1")],
            Some(RecordType::Machine)
        ),
        "(&(objectClass=ipHost)(cn=h)(ipHostNumber=10.0.0.1)(room=1))"
    );
    assert_eq!(
        s.build_filter(&[pick("phone", "1"), pick("name", "n")], Some(RecordType::Other("x".to_string()))),
        "(&(objectClass=x)(telephoneNumber=1)(cn=n))"
    );
}

#[test]
fn makes_records_of_entries() {
    let attr = |k: &str, vs: &[&str]| (k.to_string(), vs.iter().map(|v| v.to_string()).collect::<Vec<String>>());
    let entries = vec![
        vec![
            attr("cn", &["Jane"]),
            attr("mail", &["j@x", "jane@x"]),
            attr("objectClass", &["top", "inetOrgPerson"]),
            attr("empty", &[]),
        ],
        vec![attr("cn", &["h1"]), attr("objectClass", &["ipHost"])],
        vec![attr("objectClass", &["top"])],
        vec![],
    ];
    let records = ldap().answer(&entries);
    assert_eq!(records.len(), 4);
    assert_eq!(records[0].id, 1);
    assert_eq!(records[0].record_type, Some(RecordType::Person));
    assert_eq!(records[0].fields.get("name").unwrap(), "Jane");
    assert_eq!(records[0].fields.get("email").unwrap(), "j@x, jane@x");
    assert_eq!(records[0].fields.get("empty"), None);
    assert_eq!(records[1].record_type, Some(RecordType::Machine));
    assert_eq!(records[2].record_type, None);
    assert_eq!(records[3].id, 4);

    // A query is answered with what was sent for its filter, and nothing else.
    let picks = [pick("email", "j@x")];
    let mut s = ldap();
    assert_eq!(s.query(&picks, None).unwrap().len(), 0);
    s.receive(s.build_filter(&picks, None), Some(entries));
    assert_eq!(s.query(&picks, None).unwrap().len(), 4);
    assert_eq!(s.query(&picks, Some(RecordType::Person)).unwrap().len(), 0);
    s.receive(s.build_filter(&picks, None), None);
    assert_eq!(s.query(&picks, None).unwrap().len(), 0);
}

#[test]
fn refuses_to_write_to_ldap() {
    let mut s = ldap();
    assert_eq!(s.record_count(), 0);
    assert!(matches!(s.add_record(vec![], None, None), Err(StorageError::ReadOnly)));
    assert!(matches!(s.upsert_record(vec![], None, None), Err(StorageError::ReadOnly)));
    assert!(matches!(s.delete_record(&[], None, &[], &[]), Err(StorageError::ReadOnly)));
    assert!(matches!(s.change_record(&[], &[], None, &[]), Err(StorageError::ReadOnly)));
}

#[test]
fn sets_the_server_up() {
    assert_eq!(server_keys_directory(None), "./keys");
    assert_eq!(server_keys_directory(Some("/k".to_string())), "/k");
    assert_eq!(read_only_ids(), vec!["guest".to_string()]);
    assert_eq!(security_tier("Protected"), SecurityTier::Protected);
    assert_eq!(security_tier("SCOPED"), SecurityTier::Scoped);
    assert_eq!(security_tier("open"), SecurityTier::Open);
    assert_eq!(security_tier("whatever"), SecurityTier::Open);
    let some = |s: &str| Some(s.to_string());
    assert!(matches!(choose_backend(some("l"), some("f")), Backend::Ldap(_)));
    assert!(matches!(choose_backend(None, some("f")), Backend::File(_)));
    assert!(matches!(choose_backend(None, None), Backend::Memory));
    assert_eq!(validate_env(true, true), Ok(()));
    assert_eq!(
        validate_env(false, false),
        Err("Mandatory environment variable PHAROS_TLS_CERT is missing".to_string())
    );
    assert_eq!(
        validate_env(true, false),
        Err("Mandatory environment variable PHAROS_TLS_KEY is missing".to_string())
    );
    assert_eq!(gigabytes(2), Some(2147483648));
    assert_eq!(gigabytes(17179869184), None);
}
